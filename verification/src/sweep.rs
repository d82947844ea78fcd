//! The order in which the addresses of a peer are knocked at.

use crate::net::{endpoint_at, Endpoint, Ip};
use crate::port_utils::{
    fan, law_zigzag_covers_the_range_once, reach, sweep_bounds, sweep_high, sweep_low, zigzag_ports,
};
use vstd::prelude::*;

verus! {

/// The ports to try around one address of the peer: a zigzag from its port outward.
pub open spec fn ports_around(candidate: Endpoint, my_port: u16, margin: u16) -> Seq<u16> {
    let low = sweep_low(my_port as int, candidate.port as int, margin as int);
    let high = sweep_high(my_port as int, candidate.port as int, margin as int);
    fan(candidate.port as int, low, high, reach(candidate.port as int, low, high))
}

/// The endpoints at one address with these ports.
pub open spec fn at_ports(ip: Ip, ports: Seq<u16>) -> Seq<Endpoint> {
    ports.map_values(|port: u16| endpoint_at(ip, port))
}

/// What is tried at one address of the peer, in order.
pub open spec fn around(candidate: Endpoint, my_port: u16, margin: u16) -> Seq<Endpoint> {
    at_ports(candidate.ip, ports_around(candidate, my_port, margin))
}

/// What is tried at each address of the peer.
pub open spec fn lists_of(candidates: Seq<Endpoint>, my_port: u16, margin: u16) -> Seq<
    Seq<Endpoint>,
> {
    candidates.map_values(|c: Endpoint| around(c, my_port, margin))
}

/// The endpoints at position `step` of the lists that are long enough.
pub open spec fn row(lists: Seq<Seq<Endpoint>>, step: int) -> Seq<Endpoint>
    decreases lists.len(),
{
    if lists.len() == 0 {
        Seq::empty()
    } else if step < lists.last().len() {
        row(lists.drop_last(), step).push(lists.last()[step])
    } else {
        row(lists.drop_last(), step)
    }
}

/// The lists in turns: all first endpoints, then all second ones, up to `n` steps.
pub open spec fn in_turns(lists: Seq<Seq<Endpoint>>, n: nat) -> Seq<Endpoint>
    decreases n,
{
    if n == 0 {
        Seq::empty()
    } else {
        in_turns(lists, (n - 1) as nat) + row(lists, n - 1)
    }
}

/// The length of the longest list.
pub open spec fn longest(lists: Seq<Seq<Endpoint>>) -> nat
    decreases lists.len(),
{
    if lists.len() == 0 {
        0
    } else if lists.last().len() > longest(lists.drop_last()) {
        lists.last().len()
    } else {
        longest(lists.drop_last())
    }
}

/// The order of the knocks.
pub open spec fn sweep(candidates: Seq<Endpoint>, my_port: u16, margin: u16) -> Seq<Endpoint> {
    let lists = lists_of(candidates, my_port, margin);
    in_turns(lists, longest(lists))
}

/// The lists as sequences.
spec fn lists_view(lists: Seq<Vec<Endpoint>>) -> Seq<Seq<Endpoint>> {
    lists.map_values(|l: Vec<Endpoint>| l@)
}

fn list_around(candidate: Endpoint, my_port: u16, margin: u16) -> (list: Vec<Endpoint>)
    ensures
        list@ == around(candidate, my_port, margin),
{
    let (low, high): (u16, u16) = sweep_bounds(my_port, candidate.port, margin);
    let ports: Vec<u16> = zigzag_ports(candidate.port, low, high);
    let mut list: Vec<Endpoint> = Vec::new();
    let mut i: usize = 0;
    while i < ports.len()
        invariant
            i <= ports@.len(),
            list@ == at_ports(candidate.ip, ports@.take(i as int)),
        decreases ports@.len() - i,
    {
        list.push(Endpoint::new(candidate.ip, ports[i]));
        i += 1;
        assert(list@ =~= at_ports(candidate.ip, ports@.take(i as int)));
    }
    assert(ports@.take(ports@.len() as int) =~= ports@);
    list
}

/// The order in which to knock at several addresses of the peer: each has its own ports, and the
/// addresses take turns, so that none waits behind the long sweep of another.
pub fn sweep_order(candidates: &[Endpoint], my_port: u16, margin: u16) -> (order: Vec<Endpoint>)
    ensures
        order@ == sweep(candidates@, my_port, margin),
{
    let ghost all = lists_of(candidates@, my_port, margin);
    let mut lists: Vec<Vec<Endpoint>> = Vec::new();
    let mut most: usize = 0;
    let mut i: usize = 0;
    assert(lists_view(lists@) =~= all.take(0));
    while i < candidates.len()
        invariant
            i <= candidates@.len(),
            all == lists_of(candidates@, my_port, margin),
            lists_view(lists@) == all.take(i as int),
            most == longest(all.take(i as int)),
        decreases candidates@.len() - i,
    {
        let list: Vec<Endpoint> = list_around(candidates[i], my_port, margin);
        proof {
            assert(all.take(i + 1).drop_last() =~= all.take(i as int));
            assert(all.take(i + 1).last() == list@);
        }
        if list.len() > most {
            most = list.len();
        }
        let ghost before = lists@;
        lists.push(list);
        i += 1;
        assert(lists_view(lists@) =~= lists_view(before).push(list@));
        assert(lists_view(lists@) =~= all.take(i as int));
    }
    assert(all.take(candidates@.len() as int) =~= all);
    let mut order: Vec<Endpoint> = Vec::new();
    let mut step: usize = 0;
    assert(order@ =~= in_turns(all, 0));
    while step < most
        invariant
            step <= most,
            lists_view(lists@) == all,
            order@ == in_turns(all, step as nat),
        decreases most - step,
    {
        let ghost start = order@;
        let mut k: usize = 0;
        assert(order@ =~= start + row(all.take(0), step as int));
        while k < lists.len()
            invariant
                k <= lists@.len(),
                lists_view(lists@) == all,
                order@ == start + row(all.take(k as int), step as int),
            decreases lists@.len() - k,
        {
            proof {
                assert(all.take(k + 1).drop_last() =~= all.take(k as int));
                assert(all[k as int] == lists@[k as int]@);
                assert(all.take(k + 1).last() == lists@[k as int]@);
            }
            let ghost before = order@;
            if step < lists[k].len() {
                order.push(lists[k][step]);
                assert(order@ =~= start + row(all.take(k + 1), step as int));
            }
            k += 1;
        }
        assert(all.take(lists@.len() as int) =~= all);
        step += 1;
    }
    order
}

proof fn lemma_row(lists: Seq<Seq<Endpoint>>, step: int, e: Endpoint)
    requires
        step >= 0,
    ensures
        row(lists, step).contains(e) <==> exists|c: int|
            0 <= c < lists.len() && step < (#[trigger] lists[c]).len() && lists[c][step] == e,
    decreases lists.len(),
{
    let all = row(lists, step);
    if lists.len() > 0 {
        let rest = lists.drop_last();
        let before = row(rest, step);
        lemma_row(rest, step, e);
        if all.contains(e) {
            let k = choose|k: int| 0 <= k < all.len() && all[k] == e;
            if k < before.len() {
                assert(before[k] == e);
                assert(before.contains(e));
                let c = choose|c: int|
                    0 <= c < rest.len() && step < (#[trigger] rest[c]).len() && rest[c][step] == e;
                assert(lists[c] == rest[c]);
            } else {
                assert(lists[lists.len() - 1][step] == e);
            }
        }
        if exists|c: int|
            0 <= c < lists.len() && step < (#[trigger] lists[c]).len() && lists[c][step] == e {
            let c = choose|c: int|
                0 <= c < lists.len() && step < (#[trigger] lists[c]).len() && lists[c][step] == e;
            if c < lists.len() - 1 {
                assert(rest[c] == lists[c]);
                assert(before.contains(e));
                let k = choose|k: int| 0 <= k < before.len() && before[k] == e;
                assert(all[k] == e);
            } else {
                assert(all[before.len() as int] == e);
            }
        }
    }
}

proof fn lemma_turns(lists: Seq<Seq<Endpoint>>, n: nat, e: Endpoint)
    ensures
        in_turns(lists, n).contains(e) <==> exists|step: int|
            0 <= step < n && #[trigger] row(lists, step).contains(e),
    decreases n,
{
    if n > 0 {
        let m = (n - 1) as nat;
        lemma_turns(lists, m, e);
        let before = in_turns(lists, m);
        let last = row(lists, m as int);
        let all = in_turns(lists, n);
        if all.contains(e) {
            let k = choose|k: int| 0 <= k < all.len() && all[k] == e;
            if k < before.len() {
                assert(before[k] == e);
                assert(before.contains(e));
            } else {
                assert(last[k - before.len()] == e);
                assert(row(lists, m as int).contains(e));
            }
        }
        if exists|step: int| 0 <= step < n && #[trigger] row(lists, step).contains(e) {
            let step = choose|step: int|
                0 <= step < n && #[trigger] row(lists, step).contains(e);
            if step < m {
                assert(before.contains(e));
                let k = choose|k: int| 0 <= k < before.len() && before[k] == e;
                assert(all[k] == e);
            } else {
                let k = choose|k: int| 0 <= k < last.len() && last[k] == e;
                assert(all[before.len() + k] == e);
            }
        }
    }
}

proof fn lemma_longest(lists: Seq<Seq<Endpoint>>, c: int)
    requires
        0 <= c < lists.len(),
    ensures
        lists[c].len() <= longest(lists),
    decreases lists.len(),
{
    if c < lists.len() - 1 {
        lemma_longest(lists.drop_last(), c);
        assert(lists.drop_last()[c] == lists[c]);
    }
}

proof fn lemma_sweep_holds(lists: Seq<Seq<Endpoint>>, e: Endpoint)
    ensures
        in_turns(lists, longest(lists)).contains(e) <==> exists|c: int|
            0 <= c < lists.len() && (#[trigger] lists[c]).contains(e),
{
    let n = longest(lists);
    lemma_turns(lists, n, e);
    if exists|step: int| 0 <= step < n && #[trigger] row(lists, step).contains(e) {
        let step = choose|step: int| 0 <= step < n && #[trigger] row(lists, step).contains(e);
        lemma_row(lists, step, e);
        let c = choose|c: int|
            0 <= c < lists.len() && step < (#[trigger] lists[c]).len() && lists[c][step] == e;
        assert(lists[c].contains(e));
    }
    if exists|c: int| 0 <= c < lists.len() && (#[trigger] lists[c]).contains(e) {
        let c = choose|c: int| 0 <= c < lists.len() && (#[trigger] lists[c]).contains(e);
        let step = choose|step: int| 0 <= step < lists[c].len() && lists[c][step] == e;
        lemma_longest(lists, c);
        lemma_row(lists, step, e);
        assert(row(lists, step).contains(e));
    }
}

/// With ports that are not zero, the sweep knocks at exactly the ports from the lower to the
/// higher of our port and the candidate's, widened by the margin, of every candidate's address
/// alone.
pub proof fn law_sweep_covers_every_candidate(
    candidates: Seq<Endpoint>,
    my_port: u16,
    margin: u16,
    e: Endpoint,
)
    requires
        my_port != 0,
        forall|c: int| 0 <= c < candidates.len() ==> (#[trigger] candidates[c]).port != 0,
    ensures
        sweep(candidates, my_port, margin).contains(e) <==> e == e.plain() && exists|c: int|
            {
                &&& 0 <= c < candidates.len()
                &&& (#[trigger] candidates[c]).ip == e.ip
                &&& sweep_low(my_port as int, candidates[c].port as int, margin as int) <= e.port
                    <= sweep_high(my_port as int, candidates[c].port as int, margin as int)
            },
{
    let lists = lists_of(candidates, my_port, margin);
    lemma_sweep_holds(lists, e);
    assert forall|c: int| 0 <= c < candidates.len() implies ((#[trigger] lists[c]).contains(e)
        <==> e == e.plain() && candidates[c].ip == e.ip && sweep_low(
        my_port as int,
        candidates[c].port as int,
        margin as int,
    ) <= e.port <= sweep_high(my_port as int, candidates[c].port as int, margin as int)) by {
        let candidate = candidates[c];
        let low = sweep_low(my_port as int, candidate.port as int, margin as int);
        let high = sweep_high(my_port as int, candidate.port as int, margin as int);
        law_zigzag_covers_the_range_once(candidate.port, low as u16, high as u16);
        let ports = ports_around(candidate, my_port, margin);
        if lists[c].contains(e) {
            let k = choose|k: int| 0 <= k < lists[c].len() && lists[c][k] == e;
            assert(ports[k] == e.port);
            assert(ports.contains(e.port));
        }
        if e == e.plain() && candidate.ip == e.ip && low <= e.port <= high {
            assert(ports.contains(e.port));
            let k = choose|k: int| 0 <= k < ports.len() && ports[k] == e.port;
            assert(lists[c][k] == e);
        }
    }
    if exists|c: int| 0 <= c < lists.len() && (#[trigger] lists[c]).contains(e) {
        let c = choose|c: int| 0 <= c < lists.len() && (#[trigger] lists[c]).contains(e);
        assert(candidates[c].ip == e.ip);
    }
    if e == e.plain() && exists|c: int|
        {
            &&& 0 <= c < candidates.len()
            &&& (#[trigger] candidates[c]).ip == e.ip
            &&& sweep_low(my_port as int, candidates[c].port as int, margin as int) <= e.port
                <= sweep_high(my_port as int, candidates[c].port as int, margin as int)
        } {
        let c = choose|c: int|
            {
                &&& 0 <= c < candidates.len()
                &&& (#[trigger] candidates[c]).ip == e.ip
                &&& sweep_low(my_port as int, candidates[c].port as int, margin as int) <= e.port
                    <= sweep_high(my_port as int, candidates[c].port as int, margin as int)
            };
        assert(lists[c].contains(e));
    }
}

proof fn lemma_fan_starts_at_center(center: int, low: int, high: int, d: nat)
    ensures
        fan(center, low, high, d).len() > 0,
        fan(center, low, high, d)[0] == center as u16,
    decreases d,
{
    if d > 0 {
        lemma_fan_starts_at_center(center, low, high, (d - 1) as nat);
    }
}

proof fn lemma_first_row(lists: Seq<Seq<Endpoint>>, firsts: Seq<Endpoint>)
    requires
        firsts.len() == lists.len(),
        forall|c: int|
            0 <= c < lists.len() ==> (#[trigger] lists[c]).len() > 0 && lists[c][0] == firsts[c],
    ensures
        row(lists, 0) == firsts,
    decreases lists.len(),
{
    if lists.len() > 0 {
        assert forall|c: int| 0 <= c < lists.drop_last().len() implies (
        #[trigger] lists.drop_last()[c]).len() > 0 && lists.drop_last()[c][0]
            == firsts.drop_last()[c] by {
            assert(lists.drop_last()[c] == lists[c]);
        }
        lemma_first_row(lists.drop_last(), firsts.drop_last());
        assert(lists.last() == lists[lists.len() - 1]);
        assert(firsts.drop_last().push(firsts.last()) =~= firsts);
    } else {
        assert(firsts =~= Seq::empty());
    }
}

proof fn lemma_turns_start(lists: Seq<Seq<Endpoint>>, n: nat)
    requires
        n > 0,
    ensures
        in_turns(lists, n).len() >= row(lists, 0).len(),
        in_turns(lists, n).take(row(lists, 0).len() as int) == row(lists, 0),
    decreases n,
{
    if n > 1 {
        lemma_turns_start(lists, (n - 1) as nat);
        let before = in_turns(lists, (n - 1) as nat);
        assert(in_turns(lists, n).take(row(lists, 0).len() as int) =~= before.take(
            row(lists, 0).len() as int,
        ));
    } else {
        assert(in_turns(lists, 0) =~= Seq::<Endpoint>::empty());
        assert(in_turns(lists, 1) =~= row(lists, 0));
        assert(in_turns(lists, 1).take(row(lists, 0).len() as int) =~= row(lists, 0));
    }
}

/// The sweep starts with the addresses and ports of the candidates themselves, in their order.
pub proof fn law_sweep_starts_with_the_candidates(
    candidates: Seq<Endpoint>,
    my_port: u16,
    margin: u16,
)
    ensures
        sweep(candidates, my_port, margin).len() >= candidates.len(),
        sweep(candidates, my_port, margin).take(candidates.len() as int) == candidates.map_values(
            |e: Endpoint| e.plain(),
        ),
{
    let firsts = candidates.map_values(|e: Endpoint| e.plain());
    let lists = lists_of(candidates, my_port, margin);
    assert forall|c: int| 0 <= c < lists.len() implies (#[trigger] lists[c]).len() > 0
        && lists[c][0] == firsts[c] by {
        let candidate = candidates[c];
        let low = sweep_low(my_port as int, candidate.port as int, margin as int);
        let high = sweep_high(my_port as int, candidate.port as int, margin as int);
        lemma_fan_starts_at_center(
            candidate.port as int,
            low,
            high,
            reach(candidate.port as int, low, high),
        );
    }
    lemma_first_row(lists, firsts);
    if candidates.len() > 0 {
        lemma_longest(lists, 0);
        lemma_turns_start(lists, longest(lists));
    } else {
        assert(sweep(candidates, my_port, margin).take(0) =~= firsts);
    }
}

/// What is knocked at: every candidate first, in order, and then all ports between ours and the
/// candidate's, and the margin on either side, at the address of every candidate; nothing else.
pub proof fn law_knocks_cover_the_ports_around_every_candidate(
    candidates: &[Endpoint],
    my_port: u16,
    margin: u16,
    order: Vec<Endpoint>,
    ip: Ip,
    port: u16,
)
    requires
        call_ensures(sweep_order, (candidates, my_port, margin), order),
        my_port != 0,
        port != 0,
        forall|c: int| 0 <= c < candidates@.len() ==> (#[trigger] candidates@[c]).port != 0,
    ensures
        order@.len() >= candidates@.len(),
        forall|c: int|
            0 <= c < candidates@.len() ==> (#[trigger] order@[c]).ip == candidates@[c].ip
                && order@[c].port == candidates@[c].port,
        order@.contains(endpoint_at(ip, port)) <==> exists|c: int|
            {
                &&& 0 <= c < candidates@.len()
                &&& (#[trigger] candidates@[c]).ip == ip
                &&& port + margin >= my_port || port + margin >= candidates@[c].port
                &&& port <= my_port + margin || port <= candidates@[c].port + margin
            },
{
    let e = endpoint_at(ip, port);
    law_sweep_covers_every_candidate(candidates@, my_port, margin, e);
    law_sweep_starts_with_the_candidates(candidates@, my_port, margin);
    let firsts = candidates@.map_values(|e: Endpoint| e.plain());
    assert forall|c: int| 0 <= c < candidates@.len() implies (#[trigger] order@[c]).ip
        == candidates@[c].ip && order@[c].port == candidates@[c].port by {
        assert(order@.take(candidates@.len() as int)[c] == firsts[c]);
    }
}

} // verus!
