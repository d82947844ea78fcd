//! Restoring the order of packets.

use home_proxy::multilink::{Incoming, WrappedInfo};
use home_proxy::pool::Packet;
use home_proxy::reorder::lateness::{MAX_WAIT, MILLI, MIN_WAIT};
use home_proxy::reorder::ring::{Held, HeldRing, RING};
use home_proxy::reorder::Resequencer;

const WAIT: u64 = 8 * MILLI;
const START: u64 = 1_000_000_000;

fn ordered(flow: u32, seq: u64) -> Incoming {
    let mut payload = vec![0x45u8; 40];
    payload[39] = seq as u8;
    Incoming { slot: 0, payload: Packet::copy_from(&payload).unwrap(), wrapped: None, order: Some((flow, seq)) }
}

fn pkt(flow: u32, counter: u64) -> Incoming {
    let mut packet = ordered(flow, counter);
    packet.slot = (counter % 10) as u8;
    packet
}

fn counters(packets: &[Incoming]) -> Vec<u64> {
    packets.iter().map(|p| p.order.unwrap().1).collect()
}

#[test]
fn in_order_packets_pass_immediately() {
    let mut r = Resequencer::new(WAIT);
    for counter in 5..10 {
        assert_eq!(counters(&r.push(pkt(1, counter), START)), vec![counter]);
    }
    assert_eq!(r.stats().in_order, 5);
    assert_eq!(r.next_deadline(), None);
}

#[test]
fn swapped_pair_is_released_in_order_without_waiting() {
    let mut r = Resequencer::new(WAIT);
    r.push(pkt(1, 0), START);
    assert!(r.push(pkt(1, 2), START).is_empty());
    assert_eq!(counters(&r.push(pkt(1, 1), START)), vec![1, 2]);
    assert_eq!(r.stats().reordered, 1);
    assert_eq!(r.next_deadline(), None);
}

#[test]
fn missing_packet_is_skipped_after_the_wait() {
    let mut r = Resequencer::new(WAIT);
    r.push(pkt(1, 0), START);
    assert!(r.push(pkt(1, 2), START).is_empty());
    assert!(r.push(pkt(1, 3), START + 2 * MILLI).is_empty());
    assert_eq!(r.next_deadline(), Some(START + WAIT));
    assert!(r.expire(START + 7 * MILLI).is_empty());
    assert_eq!(counters(&r.expire(START + WAIT)), vec![2, 3]);
    assert_eq!(r.stats().timed_out, 2);
    assert_eq!(counters(&r.push(pkt(1, 4), START + WAIT)), vec![4]);
}

#[test]
fn late_packet_after_a_skip_is_delivered_immediately() {
    let mut r = Resequencer::new(WAIT);
    r.push(pkt(1, 0), START);
    r.push(pkt(1, 2), START);
    r.expire(START + WAIT);
    assert_eq!(counters(&r.push(pkt(1, 1), START + WAIT)), vec![1]);
    assert_eq!(r.stats().late, 1);
}

#[test]
fn unnumbered_and_short_packets_pass_through() {
    let mut r = Resequencer::new(WAIT);
    let unnumbered =
        Incoming { slot: 0, payload: Packet::copy_from(&[0x45u8; 40]).unwrap(), wrapped: None, order: None };
    assert_eq!(r.push(unnumbered, START).len(), 1);
    let short = Incoming { slot: 0, payload: Packet::copy_from(&[4, 0, 0, 0]).unwrap(), wrapped: None, order: None };
    assert_eq!(r.push(short, START).len(), 1);
    assert_eq!(r.stats().passthrough, 2);
}

#[test]
fn sessions_are_tracked_independently() {
    let mut r = Resequencer::new(WAIT);
    r.push(pkt(1, 100), START);
    r.push(pkt(2, 0), START);
    assert!(r.push(pkt(1, 102), START).is_empty());
    assert_eq!(counters(&r.push(pkt(2, 1), START)), vec![1]);
    assert_eq!(counters(&r.push(pkt(1, 101), START)), vec![101, 102]);
}

#[test]
fn a_huge_jump_flushes_and_resyncs() {
    let mut r = Resequencer::new(WAIT);
    r.push(pkt(1, 0), START);
    r.push(pkt(1, 2), START);
    let out = r.push(pkt(1, 100_000), START);
    assert_eq!(counters(&out), vec![2, 100_000]);
    assert_eq!(counters(&r.push(pkt(1, 100_001), START)), vec![100_001]);
    assert_eq!(r.stats().forced, 1);
}

#[test]
fn held_packets_are_bounded() {
    let mut r = Resequencer::new(WAIT);
    r.push(pkt(1, 0), START);
    let mut released = 0;
    for counter in 2..(RING as u64 + 4) {
        released += r.push(pkt(1, counter), START).len();
    }
    assert!(released > 0, "an overflow hands out what was held");
    assert!(r.stats().max_held <= RING);
}

#[test]
fn random_shuffle_within_a_window_comes_out_sorted() {
    let mut r = Resequencer::new(WAIT);
    let mut out = Vec::new();
    out.extend(r.push(pkt(1, 0), START));
    let order = [3u64, 1, 2, 4, 7, 5, 6, 8, 11, 9, 10];
    for counter in order {
        out.extend(r.push(pkt(1, counter), START));
    }
    assert_eq!(counters(&out), (0..=11).collect::<Vec<_>>());
    assert_eq!(r.stats().timed_out, 0);
}

fn feed_lateness(r: &mut Resequencer, start: u64, lateness: u64, rounds: u64) {
    let mut t = start;
    for round in 0..rounds {
        let base = round * 3;
        r.push(pkt(1, base), t);
        r.push(pkt(1, base + 2), t);
        t += lateness;
        r.push(pkt(1, base + 1), t);
    }
}

#[test]
fn adaptive_wait_grows_with_lateness_but_stops_at_the_cap() {
    let mut r = Resequencer::adaptive(8 * MILLI);
    feed_lateness(&mut r, START, 16 * MILLI, 200);
    assert_eq!(r.wait(), 20 * MILLI, "the 99th percentile and a quarter");
    let mut r = Resequencer::adaptive(8 * MILLI);
    feed_lateness(&mut r, START, 100 * MILLI, 200);
    assert_eq!(r.wait(), MAX_WAIT);
}

#[test]
fn adaptive_wait_shrinks_on_a_calm_network_but_not_below_the_floor() {
    let mut r = Resequencer::adaptive(20 * MILLI);
    feed_lateness(&mut r, START, 200_000, 200);
    assert_eq!(r.wait(), MIN_WAIT);
    assert_eq!(r.stats().wait_ms, 3);
}

#[test]
fn a_packet_that_missed_the_wait_still_teaches_the_buffer() {
    let mut r = Resequencer::adaptive(8 * MILLI);
    let mut t = START;
    for round in 0..100u64 {
        let base = round * 3;
        r.push(pkt(1, base), t);
        r.push(pkt(1, base + 2), t);
        t += 40 * MILLI;
        r.expire(t);
        r.push(pkt(1, base + 1), t);
    }
    assert!(r.stats().late > 0);
    assert_eq!(r.wait(), MAX_WAIT);
}

#[test]
fn fixed_wait_does_not_adapt() {
    let mut r = Resequencer::new(8 * MILLI);
    feed_lateness(&mut r, START, 16 * MILLI, 200);
    assert_eq!(r.wait(), 8 * MILLI);
}

fn seqs(packets: &[Incoming]) -> Vec<(u32, u64)> {
    packets.iter().map(|p| p.order.unwrap()).collect()
}

#[test]
fn ordered_packets_are_resequenced_per_flow() {
    let mut r = Resequencer::new(WAIT);
    assert_eq!(seqs(&r.push(ordered(1, 0), START)), vec![(1, 0)]);
    assert!(r.push(ordered(1, 2), START).is_empty(), "flow 1 waits for number 1");
    assert_eq!(seqs(&r.push(ordered(2, 0), START)), vec![(2, 0)]);
    assert_eq!(seqs(&r.push(ordered(2, 1), START)), vec![(2, 1)]);
    assert_eq!(seqs(&r.push(ordered(1, 1), START)), vec![(1, 1), (1, 2)]);
}

fn client_ordered(client_id: u8, flow: u32, seq: u64) -> Incoming {
    let mut packet = ordered(flow, seq);
    packet.wrapped = Some(WrappedInfo { client_id, seq });
    packet
}

#[test]
fn the_same_flow_of_different_clients_is_resequenced_separately() {
    let mut r = Resequencer::new(WAIT);
    assert_eq!(r.push(client_ordered(1, 5, 0), START).len(), 1);
    assert!(r.push(client_ordered(1, 5, 2), START).is_empty(), "client 1 waits for number 1");
    assert_eq!(r.push(client_ordered(2, 5, 0), START).len(), 1);
    assert_eq!(r.push(ordered(5, 0), START).len(), 1);
    assert_eq!(r.push(client_ordered(1, 5, 1), START).len(), 2);
}

#[test]
fn unnumbered_ip_packets_pass_immediately_even_while_a_flow_waits() {
    let mut r = Resequencer::new(WAIT);
    r.push(ordered(3, 0), START);
    assert!(r.push(ordered(3, 2), START).is_empty());
    let udp = Incoming { slot: 0, payload: Packet::copy_from(&[0x45u8; 40]).unwrap(), wrapped: None, order: None };
    assert_eq!(r.push(udp, START).len(), 1, "a packet without a number passes at once");
    assert_eq!(r.stats().passthrough, 1);
}

#[test]
fn the_session_silent_for_longest_makes_room() {
    let mut r = Resequencer::new(WAIT);
    for flow in 0..16u32 {
        r.push(ordered(flow, 0), START + u64::from(flow));
    }
    assert!(r.push(ordered(0, 2), START + 100).is_empty(), "flow 0 is known and waits");
    r.push(ordered(16, 0), START + 200);
    assert_eq!(r.push(ordered(1, 5), START + 300).len(), 1, "flow 1 was forgotten and starts anew");
    assert!(r.push(ordered(2, 5), START + 300).len() <= 1);
}

/// A number below `n` that depends on `seed`.
fn draw(seed: &mut u64, n: u64) -> u64 {
    *seed = seed.wrapping_mul(6364136223846793005).wrapping_add(1442695040888963407);
    (*seed >> 33) % n
}

#[test]
fn a_whole_window_in_any_order_comes_out_sorted() {
    for (n, first) in [(1u64, 0u64), (2, 5), (100, 7), (RING as u64, 1000), (RING as u64, u64::MAX - RING as u64)] {
        let mut seed = n;
        let mut rest: Vec<u64> = (first + 1..first + n).collect();
        for i in (1..rest.len()).rev() {
            rest.swap(i, draw(&mut seed, i as u64 + 1) as usize);
        }
        let mut r = Resequencer::adaptive(WAIT);
        let mut out = Vec::new();
        let mut now = START;
        for counter in [vec![first], rest].concat() {
            now += draw(&mut seed, 5) * MILLI;
            r.push_into(client_ordered(3, 9, counter), now, &mut out);
        }
        assert_eq!(counters(&out), (first..first + n).collect::<Vec<_>>());
        assert_eq!(r.next_deadline(), None);
        let stats = r.stats();
        assert_eq!((stats.late, stats.timed_out, stats.forced), (0, 0, 0));
        assert_eq!(stats.in_order + stats.reordered, n);
    }
}

#[test]
fn everything_comes_out_and_the_statistics_add_up() {
    let mut seed = 3u64;
    for round in 0..20 {
        let mut r = if round % 2 == 0 { Resequencer::new(WAIT) } else { Resequencer::adaptive(WAIT) };
        let mut out = Vec::new();
        let mut pushed: Vec<(u32, u64)> = Vec::new();
        let mut now = START;
        let mut jumps = 0;
        let mut next = [0u64; 16];
        for _ in 0..600 {
            now += draw(&mut seed, 3) * MILLI;
            let flow = draw(&mut seed, 16) as u32;
            let far = if draw(&mut seed, 50) == 0 { 5000 } else { 0 };
            let counter = next[flow as usize] + draw(&mut seed, 12) + far;
            next[flow as usize] = next[flow as usize].max(counter.saturating_sub(6));
            if pushed.contains(&(flow, counter)) {
                continue;
            }
            pushed.push((flow, counter));
            let before = (r.stats(), out.len());
            r.push_into(ordered(flow, counter), now, &mut out);
            assert!(r.stats().max_held >= before.0.max_held && r.stats().max_held <= RING);
            let counted = |s: home_proxy::reorder::ReorderStats| {
                s.passthrough + s.in_order + s.reordered + s.timed_out + s.late + s.forced
            };
            if counted(r.stats()) - counted(before.0) != (out.len() - before.1) as u64 {
                jumps += 1;
            }
            if draw(&mut seed, 20) == 0 {
                let before = (r.stats(), out.len());
                let due = r.next_deadline().is_some_and(|d| d <= now);
                r.expire_into(now, &mut out);
                assert_eq!(out.len() > before.1, due);
                assert_eq!(r.stats().timed_out - before.0.timed_out, (out.len() - before.1) as u64);
                assert!(r.next_deadline().is_none_or(|d| d > now));
            }
            assert!(round % 2 == 0 && r.wait() == WAIT || (MIN_WAIT..=MAX_WAIT).contains(&r.wait()));
        }
        r.expire_into(now + r.wait(), &mut out);
        assert_eq!(r.next_deadline(), None);
        let mut got = seqs(&out);
        got.sort_unstable();
        pushed.sort_unstable();
        assert_eq!(got, pushed);
        let s = r.stats();
        assert_eq!(s.passthrough + s.in_order + s.reordered + s.timed_out + s.late + s.forced + jumps, out.len() as u64);
        assert_eq!(s.wait_ms, r.wait() / MILLI);
        assert!(jumps > 0 && s.late > 0 && s.timed_out > 0 && s.forced > 0 && s.reordered > 0);
    }
}

#[test]
fn the_deadline_is_counted_from_the_earliest_packet_still_held() {
    let mut r = Resequencer::new(WAIT);
    r.push(ordered(1, 0), START);
    r.push(ordered(2, 0), START);
    r.push(ordered(1, 5), START + 4);
    r.push(ordered(2, 2), START + 3);
    r.push(ordered(2, 4), START + 1);
    assert_eq!(r.next_deadline(), Some(START + 1 + WAIT));
    r.push(ordered(2, 1), START + 5);
    assert_eq!(r.next_deadline(), Some(START + 1 + WAIT), "number 4 is still held");
    r.push(ordered(2, 3), START + 6);
    assert_eq!(r.next_deadline(), Some(START + 4 + WAIT), "number 5 of the other flow is left");
}

#[test]
fn a_ring_hands_back_what_it_holds_and_knows_the_earliest_arrival() {
    let mut ring = HeldRing::new();
    let held = |counter, arrived| Held { counter, packet: ordered(1, counter), arrived };
    for (counter, arrived) in [(700, 30), (705, 10), (690, 20)] {
        ring.insert(held(counter, arrived));
    }
    assert_eq!((ring.len(), ring.first(), ring.oldest_arrival()), (3, Some(690), Some(10)));
    assert!(ring.remove(691).is_none() && ring.remove(690 + RING as u64).is_none());
    assert_eq!(ring.len(), 3);
    let taken = ring.remove(705).unwrap();
    assert_eq!((taken.counter, taken.arrived, taken.packet.order), (705, 10, Some((1, 705))));
    assert_eq!((ring.len(), ring.first(), ring.oldest_arrival()), (2, Some(690), Some(20)));
    assert!(ring.remove(690).is_some());
    assert_eq!((ring.len(), ring.first(), ring.oldest_arrival()), (1, Some(700), Some(30)));
    assert!(ring.remove(700).is_some());
    assert_eq!((ring.len(), ring.first(), ring.oldest_arrival()), (0, None, None));
}
