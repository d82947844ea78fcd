//! Port sweeps for hole punching: which range to try and in which order.
//!
//! The range spans both ports that STUN saw, widened by a margin. The order starts at the
//! centre and goes outward, one step up and one step down at a time.

use vstd::prelude::*;

verus! {

/// The ports at distance `d` from `center`, the upper one first, that lie in `low..=high`.
pub open spec fn ring(center: int, low: int, high: int, d: int) -> Seq<u16> {
    let up = if d <= high - center {
        seq![(center + d) as u16]
    } else {
        Seq::empty()
    };
    let down = if d <= center - low && center - d != 0 {
        seq![(center - d) as u16]
    } else {
        Seq::empty()
    };
    up + down
}

/// The centre, then the rings at distances one to `d`.
pub open spec fn fan(center: int, low: int, high: int, d: nat) -> Seq<u16>
    decreases d,
{
    if d == 0 {
        seq![center as u16]
    } else {
        fan(center, low, high, (d - 1) as nat) + ring(center, low, high, d as int)
    }
}

/// How far the farther end of the range lies from its centre.
pub open spec fn reach(center: int, low: int, high: int) -> nat {
    if center - low <= 0 && high - center <= 0 {
        0
    } else if center - low >= high - center {
        (center - low) as nat
    } else {
        (high - center) as nat
    }
}

/// The order in which the ports of `low..=high` are tried: the centre, then outward in
/// turns (one up, one down). Port zero is skipped.
pub fn zigzag_ports(center: u16, low: u16, high: u16) -> (ports: Vec<u16>)
    ensures
        ports@ == fan(
            center as int,
            low as int,
            high as int,
            reach(center as int, low as int, high as int),
        ),
{
    let down_steps: u16 = if center > low { center - low } else { 0 };
    let up_steps: u16 = if high > center { high - center } else { 0 };
    let steps: u16 = if down_steps > up_steps { down_steps } else { up_steps };
    let mut ports: Vec<u16> = Vec::new();
    ports.push(center);
    assert(ports@ =~= fan(center as int, low as int, high as int, 0));
    let mut d: u16 = 0;
    while d < steps
        invariant
            d <= steps,
            steps == reach(center as int, low as int, high as int),
            down_steps == if center > low { center - low } else { 0 },
            up_steps == if high > center { high - center } else { 0 },
            ports@ == fan(center as int, low as int, high as int, d as nat),
        decreases steps - d,
    {
        let ghost before = ports@;
        d = d + 1;
        if d <= up_steps {
            ports.push(center + d);
        }
        if d <= down_steps && center - d != 0 {
            ports.push(center - d);
        }
        assert(ports@ =~= before + ring(center as int, low as int, high as int, d as int));
    }
    ports
}

/// The range to sweep: both ports and `margin` more on either side, never port zero.
pub fn sweep_bounds(my_port: u16, peer_port: u16, margin: u16) -> (bounds: (u16, u16))
    ensures
        bounds.0 == sweep_low(my_port as int, peer_port as int, margin as int),
        bounds.1 == sweep_high(my_port as int, peer_port as int, margin as int),
{
    let smaller: u16 = if my_port < peer_port { my_port } else { peer_port };
    let larger: u16 = if my_port < peer_port { peer_port } else { my_port };
    let lowered: u16 = smaller.saturating_sub(margin);
    (if lowered == 0 { 1 } else { lowered }, larger.saturating_add(margin))
}

/// The lower bound of a sweep.
pub open spec fn sweep_low(my_port: int, peer_port: int, margin: int) -> int {
    let smaller = if my_port < peer_port { my_port } else { peer_port };
    if smaller - margin < 1 {
        1
    } else {
        smaller - margin
    }
}

/// The upper bound of a sweep.
pub open spec fn sweep_high(my_port: int, peer_port: int, margin: int) -> int {
    let larger = if my_port < peer_port { peer_port } else { my_port };
    if larger + margin > u16::MAX {
        u16::MAX as int
    } else {
        larger + margin
    }
}

/// How far a port lies from the centre.
pub open spec fn distance(center: int, port: int) -> int {
    if port < center {
        center - port
    } else {
        port - center
    }
}

/// What the rings up to distance `d` hold.
proof fn lemma_fan(center: int, low: int, high: int, d: nat)
    requires
        0 <= low <= center <= high <= u16::MAX,
    ensures
        fan(center, low, high, d).no_duplicates(),
        forall|p: u16| #[trigger]
            fan(center, low, high, d).contains(p) <==> p == center || (low <= p <= high && p != 0
                && distance(center, p as int) <= d),
        forall|i: int, j: int|
            0 <= i < j < fan(center, low, high, d).len() ==> distance(
                center,
                #[trigger] fan(center, low, high, d)[i] as int,
            ) <= distance(center, #[trigger] fan(center, low, high, d)[j] as int),
    decreases d,
{
    let s = fan(center, low, high, d);
    if d == 0 {
        assert forall|p: u16| #[trigger] s.contains(p) <==> p == center || (low <= p <= high && p
            != 0 && distance(center, p as int) <= d) by {
            if p == center {
                assert(s[0] == p);
            }
        }
    } else {
        let inner = fan(center, low, high, (d - 1) as nat);
        let outer = ring(center, low, high, d as int);
        lemma_fan(center, low, high, (d - 1) as nat);
        assert forall|i: int| 0 <= i < s.len() implies distance(center, #[trigger] s[i] as int)
            <= d && (i >= inner.len() ==> distance(center, s[i] as int) == d) by {
            if i < inner.len() {
                assert(s[i] == inner[i]);
                assert(inner.contains(s[i]));
            } else {
                assert(s[i] == outer[i - inner.len()]);
            }
        }
        assert forall|i: int, j: int| 0 <= i < j < s.len() implies distance(
            center,
            #[trigger] s[i] as int,
        ) <= distance(center, #[trigger] s[j] as int) && s[i] != s[j] by {
            if j < inner.len() {
                assert(s[i] == inner[i] && s[j] == inner[j]);
            } else if i < inner.len() {
                assert(s[i] == inner[i]);
                assert(inner.contains(s[i]));
                assert(distance(center, s[i] as int) <= d - 1);
            } else {
                assert(s[i] == outer[0] && s[j] == outer[1]);
            }
        }
        assert forall|p: u16| #[trigger] s.contains(p) <==> p == center || (low <= p <= high && p
            != 0 && distance(center, p as int) <= d) by {
            if s.contains(p) {
                let i = choose|i: int| 0 <= i < s.len() && s[i] == p;
                if i < inner.len() {
                    assert(inner[i] == p);
                    assert(inner.contains(p));
                } else {
                    assert(outer[i - inner.len()] == p);
                }
            }
            if inner.contains(p) {
                let i = choose|i: int| 0 <= i < inner.len() && inner[i] == p;
                assert(s[i] == p);
            } else if low <= p <= high && p != 0 && distance(center, p as int) == d {
                if p == center + d {
                    assert(outer[0] == p);
                    assert(s[inner.len() as int] == p);
                } else {
                    assert(outer.last() == p);
                    assert(s[s.len() - 1] == p);
                }
            }
        }
    }
}

/// A zigzag over a range around its centre tries every port of the range exactly once (port
/// zero is left out unless it is the centre), and never returns nearer to the centre.
pub proof fn law_zigzag_covers_the_range_once(center: u16, low: u16, high: u16)
    requires
        low <= center <= high,
    ensures
        ({
            let order = fan(
                center as int,
                low as int,
                high as int,
                reach(center as int, low as int, high as int),
            );
            &&& order.no_duplicates()
            &&& forall|p: u16| #[trigger]
                order.contains(p) <==> p == center || (low <= p <= high && p != 0)
            &&& forall|i: int, j: int|
                0 <= i < j < order.len() ==> distance(center as int, #[trigger] order[i] as int)
                    <= distance(center as int, #[trigger] order[j] as int)
        }),
{
    lemma_fan(
        center as int,
        low as int,
        high as int,
        reach(center as int, low as int, high as int),
    );
}

/// The order of the two ports does not matter, and the range holds both of them.
pub proof fn law_sweep_bounds_span_both_ports(my_port: u16, peer_port: u16, margin: u16)
    requires
        my_port != 0,
        peer_port != 0,
    ensures
        sweep_low(my_port as int, peer_port as int, margin as int) == sweep_low(
            peer_port as int,
            my_port as int,
            margin as int,
        ),
        sweep_high(my_port as int, peer_port as int, margin as int) == sweep_high(
            peer_port as int,
            my_port as int,
            margin as int,
        ),
        sweep_low(my_port as int, peer_port as int, margin as int) <= my_port <= sweep_high(
            my_port as int,
            peer_port as int,
            margin as int,
        ),
        sweep_low(my_port as int, peer_port as int, margin as int) <= peer_port <= sweep_high(
            my_port as int,
            peer_port as int,
            margin as int,
        ),
{
}

/// The bounds of a sweep lie the margin below the lower and above the higher of the two ports, as
/// far as there are ports.
pub proof fn law_bounds_are_the_ports_and_a_margin(
    my_port: u16,
    peer_port: u16,
    margin: u16,
    bounds: (u16, u16),
)
    requires
        call_ensures(sweep_bounds, (my_port, peer_port, margin), bounds),
    ensures
        my_port >= margin + 1 && peer_port >= margin + 1 ==> bounds.0 + margin == if my_port
            <= peer_port {
            my_port
        } else {
            peer_port
        },
        my_port <= margin || peer_port <= margin ==> bounds.0 == 1,
        my_port + margin <= 65535 && peer_port + margin <= 65535 ==> bounds.1 == margin + if my_port
            >= peer_port {
            my_port
        } else {
            peer_port
        },
        my_port + margin > 65535 || peer_port + margin > 65535 ==> bounds.1 == 65535,
{
}

/// A zigzag starts with its centre and goes on with every other port of the range, each once, the
/// nearer ones first; port 0 is left out.
pub proof fn law_a_zigzag_goes_outward(
    center: u16,
    low: u16,
    high: u16,
    ports: Vec<u16>,
    i: int,
    j: int,
    p: u16,
)
    requires
        call_ensures(zigzag_ports, (center, low, high), ports),
        low <= center <= high,
        0 <= i < j < ports@.len(),
    ensures
        ports@[0] == center,
        ports@[i] != ports@[j],
        (if ports@[i] < center {
            center - ports@[i]
        } else {
            ports@[i] - center
        }) <= (if ports@[j] < center {
            center - ports@[j]
        } else {
            ports@[j] - center
        }),
        p > 0 ==> (ports@.contains(p) <==> low <= p <= high),
{
    law_zigzag_covers_the_range_once(center, low, high);
    lemma_starts_at_center(
        center as int,
        low as int,
        high as int,
        reach(center as int, low as int, high as int),
    );
    assert(distance(center as int, ports@[i] as int) <= distance(center as int, ports@[j] as int));
}

/// Ports around a port start with it.
proof fn lemma_starts_at_center(center: int, low: int, high: int, d: nat)
    ensures
        fan(center, low, high, d).len() > 0,
        fan(center, low, high, d)[0] == center as u16,
    decreases d,
{
    if d > 0 {
        lemma_starts_at_center(center, low, high, (d - 1) as nat);
    }
}

} // verus!
