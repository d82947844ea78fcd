//! Numbers of wrapped packets.

use std::collections::HashMap;
use vstd::prelude::*;

verus! {

broadcast use vstd::std_specs::hash::group_hash_axioms;

/// Numbers of wrapped packets: a counter of its own for every client.
pub struct SeqCounters {
    /// The next number of each client that has one.
    pub next_of: HashMap<u8, u32>,
}

impl View for SeqCounters {
    type V = Map<u8, u32>;

    open spec fn view(&self) -> Map<u8, u32> {
        self.next_of@
    }
}

/// The next number of a client.
pub open spec fn upcoming(counters: Map<u8, u32>, client_id: u8) -> u32 {
    if counters.contains_key(client_id) {
        counters[client_id]
    } else {
        0
    }
}

impl SeqCounters {
    /// Takes the next number of a client; after 32 bits they start over.
    pub fn next(&mut self, client_id: u8) -> (seq: u64)
        ensures
            seq == upcoming(old(self)@, client_id),
            final(self)@ == old(self)@.insert(
                client_id,
                upcoming(old(self)@, client_id).wrapping_add(1),
            ),
    {
        let seq: u32 = match self.next_of.get(&client_id) {
            Some(next) => *next,
            None => 0,
        };
        self.next_of.insert(client_id, seq.wrapping_add(1));
        seq as u64
    }
}

impl Default for SeqCounters {
    fn default() -> (counters: Self)
        ensures
            counters@ == Map::<u8, u32>::empty(),
    {
        SeqCounters { next_of: HashMap::new() }
    }
}

/// The counters after packets of these clients, in this order.
pub open spec fn counted(counters: Map<u8, u32>, clients: Seq<u8>) -> Map<u8, u32>
    decreases clients.len(),
{
    if clients.len() == 0 {
        counters
    } else {
        let before = counted(counters, clients.drop_last());
        before.insert(clients.last(), upcoming(before, clients.last()).wrapping_add(1))
    }
}

/// How many of the packets are of one client.
pub open spec fn packets_of(clients: Seq<u8>, client_id: u8) -> nat
    decreases clients.len(),
{
    if clients.len() == 0 {
        0
    } else {
        packets_of(clients.drop_last(), client_id) + if clients.last() == client_id {
            1nat
        } else {
            0nat
        }
    }
}

/// The packets of a client are numbered one after the other from zero, modulo 32 bits, whatever
/// other clients send in between.
pub proof fn law_clients_are_numbered_separately(clients: Seq<u8>, client_id: u8)
    ensures
        upcoming(counted(Map::empty(), clients), client_id) == packets_of(clients, client_id)
            % 0x1_0000_0000,
    decreases clients.len(),
{
    if clients.len() > 0 {
        law_clients_are_numbered_separately(clients.drop_last(), client_id);
    }
}

/// A client gets its numbers one after the other from zero, and nobody else's number moves.
pub proof fn law_numbers_follow_one_another(client_id: u8, other: u8)
    requires
        other != client_id,
    ensures
        forall|s: &mut SeqCounters, seq: u64| #[trigger]
            call_ensures(SeqCounters::next, (s, client_id), seq) ==> {
                &&& !(*s)@.contains_key(client_id) ==> seq == 0
                &&& (*s)@.contains_key(client_id) ==> seq == (*s)@[client_id]
                &&& final(s)@.contains_key(client_id)
                &&& seq < u32::MAX ==> final(s)@[client_id] == seq + 1
                &&& seq == u32::MAX ==> final(s)@[client_id] == 0
                &&& final(s)@.contains_key(other) <==> (*s)@.contains_key(other)
                &&& final(s)@.contains_key(other) ==> final(s)@[other] == (*s)@[other]
            },
{
}

} // verus!
