//! The set of holes: choosing, counting, judging, and the life of a slot.

use std::collections::HashSet;

use home_proxy::auth::PairSecret;
use home_proxy::guid::Guid;
use home_proxy::link_id::PeerLinkId;
use home_proxy::multilink::control::{can_redrop, find_bad, stats_table, Control, ControlAction};
use home_proxy::multilink::picker::{limit_slots, SlotPicker, XorShift32};
use home_proxy::multilink::plan::{Announce, Discovery};
use home_proxy::multilink::registry::{LinkRegistry, MultiLink, SendError};
use home_proxy::multilink::seq::SeqCounters;
use home_proxy::multilink::slot::{SlotAction, SlotEvent, SlotMode, SlotWorker};
use home_proxy::multilink::state::{aggregate, ConnState, SlotPhase, StateTracker};
use home_proxy::multilink::survey::{observed_endpoints, Survey};
use home_proxy::multilink::{
    jittered, link_is_bad, slot_port, wait_of, Incoming, MultiLinkOptions, DEFAULT_REORDER_WAIT, KEEPALIVE_MAX, KEEPALIVE_MIN,
    MAX_DATA_LEN, MIN_STATS_SAMPLE,
};
use home_proxy::net::{ipv4, Endpoint, Ip};
use home_proxy::pool::Packet;
use home_proxy::punch::{LinkEvent, LinkStat, PeerLinkStat, PunchConfig};
use home_proxy::rendezvous::{our_record, PeerSession, RecordError};
use home_proxy::reorder::lateness::MILLI;
use home_proxy::vps::PortRange;

#[test]
fn bad_link_needs_a_sample() {
    assert!(!link_is_bad(MIN_STATS_SAMPLE - 1, 0));
}

#[test]
fn bad_link_when_delivery_below_half() {
    assert!(link_is_bad(100, 10));
    assert!(link_is_bad(100, 49));
    assert!(!link_is_bad(100, 50));
    assert!(!link_is_bad(100, 90));
    assert!(!link_is_bad(100, u64::MAX));
}

#[test]
fn state_is_connected_count_when_any_hole_is_live() {
    let (starting, rendezvous, punching, connected) =
        (SlotPhase::Starting, SlotPhase::Rendezvous, SlotPhase::Punching, SlotPhase::Connected);
    assert_eq!(aggregate(&[starting, rendezvous]), ConnState::Rendezvous);
    assert_eq!(aggregate(&[rendezvous, punching]), ConnState::Punching);
    assert_eq!(aggregate(&[connected, punching, starting]), ConnState::Connected(1));
    assert_eq!(aggregate(&[connected, connected, punching]), ConnState::Connected(2));
}

#[test]
fn state_display_names() {
    assert_eq!(ConnState::Rendezvous.text(), "rendezvous");
    assert_eq!(ConnState::Punching.text(), "punching");
    assert_eq!(ConnState::Connected(2).text(), "connected(2)");
}

#[test]
fn only_changes_of_the_state_are_told() {
    let mut tracker = StateTracker::new(3);
    let change = tracker.set(0, SlotPhase::Starting).unwrap();
    assert_eq!((change.before, change.now), (None, ConnState::Rendezvous));
    assert_eq!(tracker.set(1, SlotPhase::Rendezvous), None);
    let change = tracker.set(1, SlotPhase::Punching).unwrap();
    assert_eq!((change.before, change.now), (Some(ConnState::Rendezvous), ConnState::Punching));
    assert_eq!(tracker.set(2, SlotPhase::Connected).unwrap().now, ConnState::Connected(1));
    assert_eq!(tracker.set(1, SlotPhase::Connected).unwrap().now, ConnState::Connected(2));
    assert_eq!(tracker.set(1, SlotPhase::Connected), None);
}

fn scripted(values: &[usize]) -> impl FnMut(usize) -> usize {
    let values = values.to_vec();
    let mut next = 0;
    move |n| {
        let value = values[next % values.len()];
        next += 1;
        value % n
    }
}

#[test]
fn picker_has_nothing_to_pick_without_live_slots() {
    assert_eq!(SlotPicker::default().pick(&[], scripted(&[0])), None);
}

#[test]
fn picker_uses_every_live_slot_once_per_cycle_then_starts_over() {
    let live: Vec<u8> = (0..10).collect();
    let mut picker = SlotPicker::default();
    let mut rand = scripted(&[7, 3, 9, 0, 5, 5, 1, 2, 8, 4, 6]);
    for cycle in 0..3 {
        let mut got: Vec<u8> = (0..10).map(|_| picker.pick(&live, &mut rand).unwrap()).collect();
        got.sort_unstable();
        assert_eq!(got, live, "cycle {cycle}: every hole exactly once");
    }
}

#[test]
fn picker_order_follows_the_random_source_not_slot_order() {
    let live = [0u8, 1, 2, 3];
    let mut picker = SlotPicker::default();
    let picked: Vec<u8> = (0..4).map(|_| picker.pick(&live, |n| n - 1).unwrap()).collect();
    assert_eq!(picked, [3, 2, 1, 0]);
}

#[test]
fn picker_drops_dead_slots_and_adds_new_ones_next_cycle() {
    let mut picker = SlotPicker::default();
    assert!(picker.pick(&[1, 2, 3], |_| 0).is_some());
    let live = [1u8, 3, 9];
    let mut got = Vec::new();
    for _ in 0..2 {
        got.push(picker.pick(&live, |_| 0).unwrap());
    }
    assert!(got.iter().all(|s| [1, 3].contains(s)), "only those of before in this cycle: {got:?}");
    assert_eq!(got.len(), 2);
    assert!(!got.contains(&2), "a dead slot was picked: {got:?}");
}

#[test]
fn random_below_stays_in_range_and_varies() {
    let mut rng = XorShift32::seeded();
    let values: Vec<usize> = (0..200).map(|_| rng.below(10)).collect();
    assert!(values.iter().all(|v| *v < 10));
    assert!(values.iter().collect::<HashSet<_>>().len() > 5);
}

#[test]
fn generator_steps_are_xorshift() {
    let mut rng = XorShift32::starting_at(0);
    assert_eq!(rng.state, 1);
    assert_eq!(rng.next(), 270_369);
    assert_eq!(rng.next(), 67_634_689);
    let mut picker = SlotPicker::starting_with(XorShift32::starting_at(0));
    assert_eq!(picker.pick_random(&[4, 5, 6, 7]), Some(5), "270369 % 4 == 1");
}

#[test]
fn wrap_seq_counts_separately_per_client() {
    let mut counters = SeqCounters::default();
    assert_eq!(counters.next(1), 0);
    assert_eq!(counters.next(1), 1);
    assert_eq!(counters.next(2), 0, "client 2 has a counter of its own");
    assert_eq!(counters.next(1), 2);
    assert_eq!(counters.next(2), 1);
}

#[test]
fn wrap_seq_wraps_at_32_bits() {
    let mut counters = SeqCounters::default();
    counters.next_of.insert(7, u32::MAX);
    assert_eq!(counters.next(7), u64::from(u32::MAX));
    assert_eq!(counters.next(7), 0);
}

#[test]
fn jitter_stays_in_bounds() {
    for nanos in [0, 1, 7_999, 8_000, 999_999_999] {
        let d = jittered(KEEPALIVE_MIN, KEEPALIVE_MAX, nanos);
        assert!(d >= KEEPALIVE_MIN && d < KEEPALIVE_MAX);
    }
    assert_eq!(jittered(KEEPALIVE_MIN, KEEPALIVE_MAX, 8_001), KEEPALIVE_MIN + MILLI);
    assert_eq!(jittered(5, 5, 77), 5);
    assert_eq!(jittered(9, 5, 77), 9, "bounds the wrong way round give the first");
}

#[test]
fn limit_slots_keeps_the_lowest_numbers_and_zero_means_all() {
    let limited = |mut v: Vec<u8>, max: u8| {
        let n = limit_slots(&mut v, max);
        v.truncate(n);
        v
    };
    assert_eq!(limited(vec![5, 1, 9, 3], 0), vec![1, 3, 5, 9]);
    assert_eq!(limited(vec![5, 1, 9, 3], 1), vec![1]);
    assert_eq!(limited(vec![5, 1, 9, 3], 2), vec![1, 3]);
    assert_eq!(limited(vec![4], 3), vec![4]);
    assert_eq!(limited(vec![], 1), Vec::<u8>::new());
}

#[test]
fn a_wait_of_any_length_is_taken() {
    assert_eq!(wait_of(8), DEFAULT_REORDER_WAIT);
    assert_eq!(wait_of(0), 0);
    assert_eq!(wait_of(u64::MAX / MILLI), u64::MAX / MILLI * MILLI);
    for milliseconds in [u64::MAX / MILLI + 1, u64::MAX] {
        let mut control = Control::new(&MultiLinkOptions { reorder_wait: wait_of(milliseconds), ..MultiLinkOptions::default() });
        let mut ready = Vec::new();
        for seq in [0, 2] {
            control.step(ordered_event(seq), &Vec::new(), 5, &mut ready);
        }
        assert_eq!(control.next_deadline(), Some(5 + 30 * MILLI), "the longest wait");
    }
}

#[test]
fn slot_ports_follow_the_base_or_stay_random() {
    assert_eq!(slot_port(0, 3), 0);
    assert_eq!(slot_port(51410, 0), 51410);
    assert_eq!(slot_port(51410, 9), 51419);
    assert_eq!(slot_port(65530, 9), 65535);
}

fn id(a: u128, b: u128) -> PeerLinkId {
    PeerLinkId::new(Guid { value: a }, Guid { value: b })
}

#[test]
fn registry_finds_holes_by_slot_and_forgets_them_by_identifier() {
    let mut registry: LinkRegistry<&str> = LinkRegistry::new();
    registry.insert(id(1, 2), 3, "three");
    registry.insert(id(3, 4), 5, "five");
    assert_eq!(registry.live_count(), 2);
    assert_eq!(registry.link(3), Some(&"three"));
    registry.insert(id(5, 6), 3, "new three");
    assert_eq!(registry.live_count(), 2);
    assert_eq!(registry.link(3), Some(&"new three"));
    registry.remove(id(9, 9));
    assert_eq!(registry.live_count(), 2, "an unknown identifier changes nothing");
    registry.remove(id(4, 3));
    assert_eq!(registry.link(5), None);
    let mut slots = registry.slots();
    slots.sort_unstable();
    assert_eq!(slots, vec![3]);
}

#[test]
fn packets_are_spread_over_the_live_holes() {
    let options = MultiLinkOptions::default();
    let mut link: MultiLink<u8> = MultiLink::new(Guid { value: 1 }, Guid { value: 2 }, &options);
    assert_eq!(link.choose_link(10), Err(SendError::NoHoles));
    assert_eq!(link.choose_link(MAX_DATA_LEN + 1), Err(SendError::TooLong));
    for slot in [4u8, 0, 7] {
        link.registry.insert(id(u128::from(slot), 100), slot, slot);
    }
    assert_eq!(link.live_slots(), vec![0, 4, 7]);
    let mut first: Vec<u8> = (0..3).map(|_| link.choose_link(MAX_DATA_LEN).unwrap()).collect();
    first.sort_unstable();
    assert_eq!(first, vec![0, 4, 7]);
    let (slot, seq) = link.next_wrapped(9, 1).unwrap();
    assert!([0, 4, 7].contains(&slot));
    assert_eq!(seq, 0);
    assert_eq!(link.next_wrapped(9, MAX_DATA_LEN + 1), Err(SendError::TooLong));
    assert_eq!(link.next_wrapped(9, 1).unwrap().1, 1, "a refused packet takes no number");
    assert_eq!((link.my_peer_id(), link.peer_id()), (Guid { value: 1 }, Guid { value: 2 }));
    assert_eq!(link.live_count(), 3);
}

#[test]
fn the_hole_is_the_one_that_the_generator_draws() {
    let options = MultiLinkOptions::default();
    let mut link: MultiLink<u8> = MultiLink::new(Guid { value: 1 }, Guid { value: 2 }, &options);
    link.picker = SlotPicker::starting_with(XorShift32::starting_at(0));
    for slot in [4u8, 5, 6, 7] {
        link.registry.insert(id(u128::from(slot), 100), slot, slot);
    }
    assert_eq!(link.choose_link(MAX_DATA_LEN + 1), Err(SendError::TooLong));
    assert_eq!(link.choose_link(1), Ok(5), "270369 % 4 == 1, and a refusal draws nothing");
    let (slot, _) = link.next_wrapped(1, 1).unwrap();
    assert!(slot != 5, "67634689 % 3 == 1 of what is left");
}

#[test]
fn the_source_is_asked_once_with_the_number_of_slots_left() {
    let live: Vec<u8> = (0..5).collect();
    let mut picker = SlotPicker::default();
    let mut asked = Vec::new();
    for _ in 0..7 {
        picker.pick(&live, |n| {
            asked.push(n);
            0
        });
    }
    assert_eq!(asked, [5, 4, 3, 2, 1, 5, 4]);
    assert_eq!(XorShift32::seeded().state % 2, 1);
}

#[test]
fn data_holes_limit_the_choice_to_the_lowest_slots() {
    let options = MultiLinkOptions { data_holes: 2, ..MultiLinkOptions::default() };
    let mut link: MultiLink<u8> = MultiLink::new(Guid { value: 1 }, Guid { value: 2 }, &options);
    for slot in [8u8, 2, 5] {
        link.registry.insert(id(u128::from(slot), 100), slot, slot);
    }
    for _ in 0..20 {
        assert!([2, 5].contains(&link.choose_link(1).unwrap()));
    }
}

#[test]
fn bad_holes_are_found_by_both_sides_counters() {
    let stats = vec![
        PeerLinkStat { slot: 1, sent: 100, received: 0 },
        PeerLinkStat { slot: 2, sent: 100, received: 0 },
        PeerLinkStat { slot: 3, sent: 4, received: 0 },
        PeerLinkStat { slot: 4, sent: 10, received: 0 },
    ];
    assert_eq!(find_bad(&stats, &vec![(1, 80), (2, 49), (3, 0)]), vec![2, 4]);
    assert!(can_redrop(9));
    assert!(!can_redrop(10));
    assert_eq!(stats_table(&vec![(3, (5, 6))]), vec![LinkStat { slot: 3, sent: 5, received: 6 }]);
}

fn payload(n: u8) -> Packet {
    Packet::copy_from(&[n; 4]).unwrap()
}

fn ordered_event(seq: u64) -> LinkEvent {
    LinkEvent::PeerOrdered { slot: (seq % 10) as u8, flow: 7, seq, payload: payload(seq as u8) }
}

fn numbers(ready: &mut Vec<Incoming>) -> Vec<u64> {
    ready.drain(..).map(|p| p.order.unwrap().1).collect()
}

/// Packets that came through different holes out of order come out in order; a missing one is
/// waited for, then the rest is handed out.
#[test]
fn control_restores_the_order_and_skips_a_missing_packet() {
    let options = MultiLinkOptions { reorder_wait: 60 * MILLI, ..MultiLinkOptions::default() };
    let mut control = Control::new(&options);
    let mut ready = Vec::new();
    let now = 1_000 * MILLI;
    for seq in [0u64, 2, 1, 3] {
        control.step(ordered_event(seq), &Vec::new(), now, &mut ready);
    }
    assert_eq!(numbers(&mut ready), vec![0, 1, 2, 3]);
    assert_eq!(control.next_deadline(), None);

    control.step(ordered_event(5), &Vec::new(), now, &mut ready);
    control.step(ordered_event(6), &Vec::new(), now + 1, &mut ready);
    assert!(ready.is_empty());
    let deadline = control.next_deadline().unwrap();
    control.expire(deadline - 1, &mut ready);
    assert!(ready.is_empty());
    control.expire(deadline, &mut ready);
    assert_eq!(numbers(&mut ready), vec![5, 6]);
    assert_eq!(control.stats().unwrap().timed_out, 2);
}

#[test]
fn control_without_reorder_forwards_in_arrival_order_at_once() {
    let options = MultiLinkOptions { reorder_wait: 0, ..MultiLinkOptions::default() };
    let mut control = Control::new(&options);
    let mut ready = Vec::new();
    for seq in [0u64, 2, 1] {
        control.step(ordered_event(seq), &Vec::new(), 5, &mut ready);
    }
    assert_eq!(numbers(&mut ready), vec![0, 2, 1]);
    assert_eq!(control.next_deadline(), None);
    assert!(control.stats().is_none());
}

#[test]
fn control_passes_packets_of_clients_past_the_buffer_when_told_to() {
    let wrapped = |seq| LinkEvent::PeerWrapped { slot: 0, seq, client_id: 4, flow: Some(1), payload: payload(1) };
    let mut through = Control::new(&MultiLinkOptions { reorder_clients: false, ..MultiLinkOptions::default() });
    let mut ready = Vec::new();
    for seq in [0u64, 2] {
        through.step(wrapped(seq), &Vec::new(), 5, &mut ready);
    }
    assert_eq!(numbers(&mut ready), vec![0, 2]);
    let mut held = Control::new(&MultiLinkOptions::default());
    for seq in [0u64, 2] {
        held.step(wrapped(seq), &Vec::new(), 5, &mut ready);
    }
    assert_eq!(ready[0].wrapped.unwrap().client_id, 4);
    assert_eq!(numbers(&mut ready), vec![0], "number 2 waits for number 1");
}

#[test]
fn the_last_number_passes_where_no_buffer_takes_it() {
    let wrapped = || LinkEvent::PeerWrapped { slot: 0, seq: u64::MAX, client_id: 4, flow: Some(1), payload: payload(1) };
    let mut ready = Vec::new();
    let mut off = Control::new(&MultiLinkOptions { reorder_wait: 0, ..MultiLinkOptions::default() });
    for event in [ordered_event(u64::MAX), wrapped()] {
        assert!(off.can_follow(&event));
        off.step(event, &Vec::new(), 5, &mut ready);
    }
    let mut past = Control::new(&MultiLinkOptions { reorder_clients: false, ..MultiLinkOptions::default() });
    assert!(past.can_follow(&wrapped()) && !past.can_follow(&ordered_event(u64::MAX)));
    past.step(wrapped(), &Vec::new(), 5, &mut ready);
    assert_eq!(numbers(&mut ready), vec![u64::MAX; 3]);
    let on = Control::new(&MultiLinkOptions::default());
    assert!(!on.can_follow(&wrapped()) && !on.can_follow(&ordered_event(u64::MAX)));
    assert!(on.can_follow(&ordered_event(u64::MAX - 1)));
    let foreign = LinkEvent::PeerWrapped { slot: 0, seq: u64::MAX, client_id: 300, flow: Some(1), payload: payload(1) };
    assert!(on.can_follow(&foreign) && on.can_follow(&LinkEvent::DeleteLink { slot: 1 }));
}

#[test]
fn control_answers_every_other_event() {
    let mut control = Control::new(&MultiLinkOptions::default());
    let mut ready = Vec::new();
    let none = Vec::new();
    let stats = LinkEvent::PeerStats(vec![PeerLinkStat { slot: 6, sent: 50, received: 0 }]);
    assert!(matches!(control.step(stats, &none, 1, &mut ready), ControlAction::Replace(slots) if slots == vec![6]));
    let delete = LinkEvent::DeleteLink { slot: 3 };
    assert!(matches!(control.step(delete, &none, 1, &mut ready), ControlAction::Redrop(3)));
    let foreign = LinkEvent::PeerWrapped { slot: 0, seq: 1, client_id: 300, flow: None, payload: payload(0) };
    assert!(matches!(control.step(foreign, &none, 1, &mut ready), ControlAction::BadClient(300)));
    let mut record = our_record(Guid { value: 1 }, 5, Guid { value: 2 }, &[endpoint(9)], [0; 16], 0);
    assert!(matches!(
        control.step(LinkEvent::PeerRendezvous(record.copy()), &none, 1, &mut ready),
        ControlAction::Feed(session) if session.slot == 5 && session.addr == endpoint(9)
    ));
    record.slot = 256;
    assert!(matches!(
        control.step(LinkEvent::PeerRendezvous(record), &none, 1, &mut ready),
        ControlAction::BadRecord(RecordError::Slot)
    ));
    let data = LinkEvent::PeerData { slot: 1, payload: payload(8) };
    assert!(matches!(control.step(data, &none, 1, &mut ready), ControlAction::Nothing));
    assert_eq!(ready.len(), 1, "plain data passes at once");
}

fn endpoint(port: u16) -> Endpoint {
    Endpoint::new(Ip::V4(ipv4(203, 0, 113, 7)), port)
}

fn worker(mode: SlotMode) -> SlotWorker {
    let (me, peer) = (Guid { value: 1 }, Guid { value: 2 });
    SlotWorker::new(4, mode, me, peer, PairSecret::new(me, peer))
}

fn peer_session(session: u128, port: u16, extra: Vec<Endpoint>) -> PeerSession {
    PeerSession { slot: 4, session_id: Guid { value: session }, addr: endpoint(port), key: [0; 16], extra }
}

/// What is done last: it brings the next event.
fn last(mut actions: Vec<SlotAction>) -> SlotAction {
    actions.pop().unwrap()
}

/// The phases that are told.
fn told(actions: &[SlotAction]) -> Vec<SlotPhase> {
    actions.iter().filter_map(|a| if let SlotAction::Tell(phase) = a { Some(*phase) } else { None }).collect()
}

#[test]
fn a_slot_with_stun_goes_through_its_life() {
    let mut slot = worker(SlotMode::Stun);
    let start = || SlotEvent::Start { session: Guid { value: 10 }, key: [7; 16] };
    assert!(slot.step(SlotEvent::Lost).is_empty());
    assert!(matches!(slot.step(start())[..], [SlotAction::Tell(SlotPhase::Starting), SlotAction::Observe]));
    assert!(matches!(slot.step(SlotEvent::Observed(None))[..], [SlotAction::Pause]));
    assert!(matches!(slot.step(start())[..], [SlotAction::Tell(SlotPhase::Starting), SlotAction::Observe]));
    assert!(slot.step(start()).is_empty(), "it has started");
    match last(slot.step(SlotEvent::Observed(Some(vec![endpoint(50), endpoint(60)])))) {
        SlotAction::Announce { session, endpoints, key } => {
            assert_eq!((session, endpoints, key), (Guid { value: 10 }, vec![endpoint(50), endpoint(60)], [7; 16]));
        }
        _ => panic!("not announced"),
    }
    assert!(matches!(
        slot.step(SlotEvent::Announced(true))[..],
        [SlotAction::Tell(SlotPhase::Rendezvous), SlotAction::WaitPeer]
    ));
    let actions = slot.step(SlotEvent::Peer(Some(peer_session(20, 70, vec![endpoint(80), endpoint(70)]))));
    assert_eq!((actions.len(), told(&actions)), (2, vec![SlotPhase::Punching]));
    match last(actions) {
        SlotAction::Punch { my_port, candidates, identity } => {
            assert_eq!(my_port, 50);
            assert_eq!(candidates, vec![endpoint(70), endpoint(80)]);
            assert_eq!((identity.session_id, identity.peer_session_id), (Guid { value: 10 }, Guid { value: 20 }));
            assert_eq!((identity.slot, identity.my_peer_id), (4, Guid { value: 1 }));
        }
        _ => panic!("not punched"),
    }
    assert!(slot.step(SlotEvent::Redrop).is_empty(), "nothing to punch anew yet");
    let (session, peer) = (Guid { value: 10 }, Guid { value: 20 });
    match &slot.step(SlotEvent::Punched(true))[..] {
        [SlotAction::List { session: s, peer: p }, SlotAction::Tell(SlotPhase::Connected), SlotAction::Hold] => {
            assert_eq!((*s, *p), (session, peer));
        }
        _ => panic!("not listed before it is connected"),
    }
    match &slot.step(SlotEvent::Redrop)[..] {
        [SlotAction::Unlist { session: s, peer: p }, SlotAction::Restart] => assert_eq!((*s, *p), (session, peer)),
        _ => panic!("not taken out"),
    }
    // The next registration does not take the session of the last hole again.
    slot.step(start());
    slot.step(SlotEvent::Observed(Some(vec![endpoint(51)])));
    slot.step(SlotEvent::Announced(true));
    assert!(matches!(slot.step(SlotEvent::Peer(Some(peer_session(20, 70, vec![]))))[..], [SlotAction::WaitPeer]));
    assert!(matches!(last(slot.step(SlotEvent::Peer(Some(peer_session(21, 70, vec![]))))), SlotAction::Punch { .. }));
    assert!(matches!(slot.step(SlotEvent::Punched(false))[..], [SlotAction::Restart]));
    slot.step(start());
    slot.step(SlotEvent::Observed(Some(vec![endpoint(51)])));
    assert!(matches!(slot.step(SlotEvent::Announced(false))[..], [SlotAction::Pause]));
    slot.step(start());
    assert!(matches!(slot.step(SlotEvent::Observed(Some(vec![])))[..], [SlotAction::Pause]), "no address");
    slot.step(start());
    slot.step(SlotEvent::Observed(Some(vec![endpoint(51)])));
    slot.step(SlotEvent::Announced(true));
    assert!(matches!(slot.step(SlotEvent::Peer(None))[..], [SlotAction::Stop]));
    assert!(slot.step(start()).is_empty(), "it has stopped");
}

#[test]
fn phases_of_a_slot_and_the_registry_go_together() {
    let mut slot = worker(SlotMode::VpsClient);
    let mut registry: LinkRegistry<()> = LinkRegistry::new();
    registry.insert(id(500, 501), 7, ());
    let mut phases = Vec::new();
    let mut links = Vec::new();
    for (session, peer, punched) in [(10, 20, true), (11, 21, false), (12, 22, true), (13, 22, true), (14, 23, true)] {
        let events = [
            SlotEvent::Start { session: Guid { value: session }, key: [7; 16] },
            SlotEvent::Punched(true),
            SlotEvent::Bound(Some(9)),
            SlotEvent::Announced(true),
            SlotEvent::Lost,
            SlotEvent::Peer(Some(peer_session(peer, 70, vec![]))),
            SlotEvent::Peer(Some(peer_session(peer + 100, 70, vec![]))),
            SlotEvent::Announced(false),
            SlotEvent::Punched(punched),
            SlotEvent::Peer(None),
            SlotEvent::Lost,
        ];
        for event in events {
            for action in slot.step(event) {
                let live = registry.link(4).is_some();
                match action {
                    SlotAction::Tell(phase) => {
                        assert_eq!(live, phase == SlotPhase::Connected, "{phase:?}");
                        phases.push(phase);
                    }
                    SlotAction::List { session, peer } => {
                        assert_eq!(phases.last(), Some(&SlotPhase::Punching));
                        links.push((session.value, peer.value));
                        registry.insert(PeerLinkId::new(session, peer), 4, ());
                    }
                    SlotAction::Unlist { session, peer } => {
                        assert_eq!(phases.last(), Some(&SlotPhase::Connected));
                        registry.remove(PeerLinkId::new(session, peer));
                    }
                    _ => assert!(!live || phases.last() == Some(&SlotPhase::Connected)),
                }
            }
        }
    }
    assert_eq!(links, vec![(10, 20), (12, 22), (13, 122), (14, 23)], "never twice to one session of the peer");
    let (up, down) = ([SlotPhase::Starting, SlotPhase::Rendezvous, SlotPhase::Punching], SlotPhase::Connected);
    let hole: Vec<SlotPhase> = up.iter().copied().chain([down]).collect();
    assert_eq!(phases, [hole.clone(), up.to_vec(), hole.clone(), hole.clone(), hole].concat());
    assert_eq!(registry.slots(), vec![7], "the other slot was left alone");
}

#[test]
fn slots_of_a_server_and_its_client_take_new_ports() {
    let ports = PortRange { low: 40001, high: 40010 };
    let public_ip = Ip::V4(ipv4(203, 0, 113, 10));
    let mut server = worker(SlotMode::VpsServer { public_ip, bootstrap_port: 40000, ports });
    let start = || SlotEvent::Start { session: Guid { value: 10 }, key: [0; 16] };
    assert!(matches!(
        last(server.step(start())),
        SlotAction::BindRange { ports: PortRange { low: 40001, high: 40010 }, exclude: 40000 }
    ));
    assert!(matches!(server.step(SlotEvent::Bound(None))[..], [SlotAction::Pause]));
    server.step(start());
    match last(server.step(SlotEvent::Bound(Some(40007)))) {
        SlotAction::Announce { endpoints, .. } => {
            assert_eq!(endpoints, vec![Endpoint::new(public_ip, 40007)]);
        }
        _ => panic!("not announced"),
    }
    server.step(SlotEvent::Announced(true));
    match last(server.step(SlotEvent::Peer(Some(peer_session(20, 70, vec![endpoint(80)]))))) {
        SlotAction::Punch { candidates, my_port, .. } => assert!(candidates.is_empty() && my_port == 40007),
        _ => panic!("not waiting"),
    }

    let mut client = worker(SlotMode::VpsClient);
    assert!(matches!(last(client.step(start())), SlotAction::BindAny));
    match last(client.step(SlotEvent::Bound(Some(5000)))) {
        SlotAction::Announce { endpoints, .. } => {
            assert_eq!(endpoints, vec![Endpoint::new(Ip::V4(0), 5000)]);
        }
        _ => panic!("not announced"),
    }
    client.step(SlotEvent::Announced(true));
    match last(client.step(SlotEvent::Peer(Some(peer_session(20, 40007, vec![endpoint(80)]))))) {
        SlotAction::Punch { candidates, .. } => assert_eq!(candidates, vec![endpoint(40007)]),
        _ => panic!("not knocking"),
    }
}

#[test]
fn discovery_decides_ports_announcements_and_margins() {
    let stun = Discovery::StunMqtt { stun_addrs: vec![endpoint(1)], mqtt_addr: endpoint(2), mqtt_ca_pem: vec![] };
    let ports = PortRange { low: 1, high: 2 };
    let server = Discovery::VpsServer { public_ip: Ip::V4(1), bootstrap_port: 9, ports };
    let client = Discovery::VpsClient { server: endpoint(3) };
    let options = MultiLinkOptions { local_port_base: 500, ..MultiLinkOptions::default() };
    assert_eq!(options.reorder_wait, DEFAULT_REORDER_WAIT);
    assert_eq!((stun.first_port(&options, 3), server.first_port(&options, 3), client.first_port(&options, 3)), (503, 0, 0));
    assert_eq!((stun.announce(0), stun.announce(1)), (Announce::Broker, Announce::Holes));
    assert_eq!((server.announce(0), client.announce(0)), (Announce::BootstrapServer, Announce::BootstrapClient));
    assert_eq!(client.announce(9), Announce::Holes);
    assert_eq!((stun.punch(), server.punch()), (PunchConfig::default(), PunchConfig::default()));
    assert_eq!(client.punch().margin, 0);
    assert_eq!((stun.mode(), client.mode()), (SlotMode::Stun, SlotMode::VpsClient));
    assert_eq!(server.mode(), SlotMode::VpsServer { public_ip: Ip::V4(1), bootstrap_port: 9, ports });
    assert_eq!(Announce::Broker.interval(), Some(30_000 * MILLI));
    assert_eq!(Announce::Holes.interval(), Some(3_000 * MILLI));
    assert_eq!(Announce::BootstrapServer.interval(), None);
    assert_eq!(Announce::BootstrapClient.interval(), Some(1_000 * MILLI));
}

#[test]
fn every_stun_server_is_asked_at_most_twice() {
    let mut survey = Survey::new(vec![endpoint(1), endpoint(2), endpoint(3)]);
    assert_eq!(survey.next(), Some(endpoint(1)));
    survey.answered(None);
    assert_eq!(survey.next(), Some(endpoint(1)), "once more");
    survey.answered(None);
    assert_eq!(survey.next(), Some(endpoint(2)));
    survey.answered(Some(endpoint(40)));
    assert_eq!(survey.next(), Some(endpoint(3)));
    survey.answered(Some(endpoint(40)));
    assert_eq!(survey.next(), None);
    assert_eq!(survey.endpoints(), Some(vec![endpoint(40)]));
    assert_eq!(survey.nat_hint(), None);
    assert_eq!(observed_endpoints(&[]), None);
    assert_eq!(
        observed_endpoints(&[(endpoint(1), endpoint(7)), (endpoint(2), endpoint(8)), (endpoint(3), endpoint(7))]),
        Some(vec![endpoint(7), endpoint(8)])
    );
}
