//! The set of holes (slots) to one peer.
//!
//! Traffic is spread over many independent pairs of addresses. Slot `k` of ours is punched only
//! to slot `k` of the peer. The peers meet through a broker (or a server with a public address)
//! for slot 0 alone; the addresses of the other slots travel over the holes that are open.

pub mod control;
pub mod events;
pub mod life;
pub mod picker;
pub mod plan;
pub mod registry;
pub mod seq;
pub mod slot;
pub mod survey;
pub mod state;

use crate::pool::Packet;
use crate::reorder::lateness::{clamp_wait, MILLI};
use vstd::prelude::*;

verus! {

/// How many holes are wanted.
pub const TARGET_LINKS: u8 = 10;

/// The slot that is agreed on outside the holes.
pub const BOOTSTRAP_SLOT: u8 = 0;

/// The largest payload of one message, in bytes.
pub const MAX_DATA_LEN: usize = 1400;

/// How long a missing packet is waited for at first, in nanoseconds.
pub const DEFAULT_REORDER_WAIT: u64 = 8_000_000;

/// Keep-alives are sent after a random pause within these bounds, in nanoseconds.
pub const KEEPALIVE_MIN: u64 = 2_000_000_000;

pub const KEEPALIVE_MAX: u64 = 10_000_000_000;

/// A hole is not judged by fewer packets.
pub const MIN_STATS_SAMPLE: u64 = 5;

/// What is known of a wrapped packet.
#[derive(Clone, Copy, Debug, PartialEq, Eq, Structural)]
pub struct WrappedInfo {
    /// Number of the client (phone) that the packet belongs to.
    pub client_id: u8,
    pub seq: u64,
}

/// Payload from the peer and the number of the hole it came through.
///
/// `wrapped` is set for a packet that came wrapped for a client behind a router; `order` holds
/// the flow bucket and the number inside it for a packet whose order is to be restored.
pub struct Incoming {
    pub slot: u8,
    pub payload: Packet,
    pub wrapped: Option<WrappedInfo>,
    pub order: Option<(u32, u64)>,
}

/// Options of a set of holes.
#[derive(Clone, Copy, Debug, PartialEq, Eq, Structural)]
pub struct MultiLinkOptions {
    /// How long a missing packet is waited for at first, in nanoseconds; zero switches the
    /// restoring of the order off.
    pub reorder_wait: u64,
    /// How many holes are used for sending: zero means all that are live, another number that
    /// many live ones with the lowest slots.
    pub data_holes: u8,
    /// The first local port: slot `k` takes `local_port_base + k`. Zero leaves the choice to the
    /// system.
    pub local_port_base: u16,
    /// Whether the order of packets that belong to clients is restored too.
    pub reorder_clients: bool,
}

impl Default for MultiLinkOptions {
    fn default() -> (options: Self)
        ensures
            options == (MultiLinkOptions {
                reorder_wait: DEFAULT_REORDER_WAIT,
                data_holes: 0,
                local_port_base: 0,
                reorder_clients: true,
            }),
    {
        MultiLinkOptions {
            reorder_wait: DEFAULT_REORDER_WAIT,
            data_holes: 0,
            local_port_base: 0,
            reorder_clients: true,
        }
    }
}

/// The local port of a slot: its number above the base, or any (zero), where no base is given.
pub fn slot_port(base: u16, slot: u8) -> (port: u16)
    ensures
        port == if base == 0 {
            0
        } else if base + slot > u16::MAX {
            u16::MAX as int
        } else {
            base + slot
        },
{
    if base == 0 {
        0
    } else {
        base.saturating_add(slot as u16)
    }
}

/// The peer sent `peer_sent` packets through a hole and we received `my_received`: with enough
/// packets to judge by, a hole that loses more than half of them is bad.
pub fn link_is_bad(peer_sent: u64, my_received: u64) -> (bad: bool)
    ensures
        bad == (peer_sent >= MIN_STATS_SAMPLE && my_received * 2 < peer_sent),
{
    peer_sent >= MIN_STATS_SAMPLE && my_received < peer_sent && my_received < peer_sent
        - my_received
}

/// A wait in milliseconds as nanoseconds; one that does not fit is the longest that does. Either
/// is brought into the same bounds.
pub fn wait_of(milliseconds: u64) -> (wait: u64)
    ensures
        wait == if milliseconds * MILLI <= u64::MAX {
            milliseconds * MILLI
        } else {
            u64::MAX as int
        },
        clamp_wait(wait as int) == clamp_wait(milliseconds * MILLI),
{
    if milliseconds <= u64::MAX / MILLI {
        milliseconds * MILLI
    } else {
        u64::MAX
    }
}

/// The whole milliseconds between two bounds, and at least one.
pub open spec fn jitter_span(min: u64, max: u64) -> int {
    if (max - min) / (MILLI as int) > 1 {
        (max - min) / (MILLI as int)
    } else {
        1
    }
}

/// A pseudo-random duration between the bounds, in nanoseconds, from the nanoseconds of the clock:
/// the lower bound and whole milliseconds on top. Where the bounds are less than two milliseconds
/// apart it is the lower one.
pub fn jittered(min: u64, max: u64, nanos: u32) -> (pause: u64)
    ensures
        pause == min + nanos as int % jitter_span(min, max) * MILLI,
        min <= pause,
        min <= max ==> pause <= max,
        max - min >= MILLI ==> pause < max,
{
    let whole: u64 = max.saturating_sub(min) / MILLI;
    let span: u64 = if whole > 1 {
        whole
    } else {
        1
    };
    let step: u64 = nanos as u64 % span;
    proof {
        assert(step * MILLI <= (span - 1) * MILLI) by (nonlinear_arith)
            requires
                step <= span - 1,
                MILLI == 1_000_000,
        ;
        if whole > 1 {
            assert(whole * MILLI <= max - min);
            assert((span - 1) * MILLI == whole * MILLI - MILLI) by (nonlinear_arith)
                requires
                    span == whole,
                    MILLI == 1_000_000,
            ;
        }
    }
    min + step * MILLI
}

/// Slots take consecutive ports from the base on, as far as there are ports; without a base any.
pub proof fn law_slot_ports_are_consecutive(base: u16, slot: u8, port: u16)
    requires
        call_ensures(slot_port, (base, slot), port),
    ensures
        base == 0 <==> port == 0,
        base > 0 && base + slot <= 65535 ==> port == base + slot,
        base > 0 ==> port >= base,
{
}

/// A pause lies between its bounds, a whole number of milliseconds above the lower one, and takes
/// every such length below the upper one for some moment.
pub proof fn law_pauses_are_spread_over_their_bounds(
    min: u64,
    max: u64,
    nanos: u32,
    pause: u64,
    k: u32,
    other: u64,
)
    requires
        min <= max,
        call_ensures(jittered, (min, max, nanos), pause),
        call_ensures(jittered, (min, max, k), other),
        k * 1_000_000 < max - min - (max - min) % 1_000_000,
    ensures
        min <= pause <= max,
        (pause - min) % 1_000_000 == 0,
        other == min + k * 1_000_000,
{
    let span = jitter_span(min, max);
    assert(k < span) by (nonlinear_arith)
        requires
            k * 1_000_000 < max - min - (max - min) % 1_000_000,
            span >= (max - min) / 1_000_000,
            min <= max,
    ;
    vstd::arithmetic::div_mod::lemma_small_mod(k as nat, span as nat);
    let r = nanos as int % span;
    assert((r * 1_000_000) % 1_000_000 == 0) by (nonlinear_arith);
}

/// A wait in milliseconds is that many million nanoseconds.
pub proof fn law_a_millisecond_is_a_million_nanoseconds(milliseconds: u64, wait: u64)
    requires
        call_ensures(wait_of, (milliseconds,), wait),
        milliseconds <= 18_446_744_073_709,
    ensures
        wait == milliseconds as int * 1_000_000,
{
}

/// Ten slots have a hole each, slot 0 the first; a missing packet is waited for 8 milliseconds at
/// first, and a hole is kept open by a packet every 2 to 10 seconds.
pub proof fn law_holes_are_kept_open()
    ensures
        TARGET_LINKS == 10,
        BOOTSTRAP_SLOT == 0,
        DEFAULT_REORDER_WAIT == 8 * 1_000_000,
        KEEPALIVE_MIN == 2 * 1_000_000_000,
        KEEPALIVE_MAX == 10 * 1_000_000_000,
{
}

} // verus!
