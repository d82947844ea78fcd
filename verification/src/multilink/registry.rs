//! The live holes, and which of them carries the next packet.

use super::picker::{ascending, bag, limit_slots, picks, shifted, taken, SlotPicker};
use super::seq::{upcoming, SeqCounters};
use super::{MultiLinkOptions, MAX_DATA_LEN, TARGET_LINKS};
use crate::assoc::{AssocList, Key};
use crate::guid::Guid;
use crate::link_id::PeerLinkId;
use std::collections::HashMap;
use vstd::prelude::*;
use vstd::seq_lib::group_to_multiset_ensures;
use vstd::std_specs::iter::IteratorSpec;

verus! {

broadcast use vstd::std_specs::hash::group_hash_axioms;

impl Key for PeerLinkId {
    fn same_key(&self, other: &PeerLinkId) -> (same: bool) {
        self.same(other)
    }
}

/// Which slots are live, and the slot of each hole by its identifier.
#[verifier::ext_equal]
pub struct RegistryModel {
    pub live: Set<u8>,
    pub index: Map<Seq<u8>, u8>,
}

impl RegistryModel {
    /// A hole is open.
    pub open spec fn inserted(self, id: Seq<u8>, slot: u8) -> Self {
        RegistryModel { live: self.live.insert(slot), index: self.index.insert(id, slot) }
    }

    /// A hole is gone.
    pub open spec fn removed(self, id: Seq<u8>) -> Self {
        if self.index.contains_key(id) {
            RegistryModel { live: self.live.remove(self.index[id]), index: self.index.remove(id) }
        } else {
            self
        }
    }
}

/// The live holes by their slots, and the slot of each hole by its identifier. `L` is what sends
/// through a hole.
pub struct LinkRegistry<L> {
    by_slot: HashMap<u8, L>,
    index: AssocList<PeerLinkId, u8>,
}

impl<L> LinkRegistry<L> {
    /// The live holes by their slots.
    pub closed spec fn live(&self) -> Map<u8, L> {
        self.by_slot@
    }

    /// The slot of each hole by its identifier.
    pub closed spec fn index(&self) -> Map<Seq<u8>, u8> {
        self.index@
    }

    /// Which slots are live, and the slot of each hole by its identifier.
    pub open spec fn model(&self) -> RegistryModel {
        RegistryModel { live: self.live().dom(), index: self.index() }
    }

    pub fn new() -> (registry: Self)
        ensures
            registry.live() == Map::<u8, L>::empty(),
            registry.index() == Map::<Seq<u8>, u8>::empty(),
    {
        LinkRegistry { by_slot: HashMap::new(), index: AssocList::new() }
    }

    /// A hole is open.
    pub fn insert(&mut self, link_id: PeerLinkId, slot: u8, link: L)
        ensures
            final(self).live() == old(self).live().insert(slot, link),
            final(self).index() == old(self).index().insert(link_id@, slot),
            final(self).model() == old(self).model().inserted(link_id@, slot),
    {
        self.index.insert(link_id, slot);
        self.by_slot.insert(slot, link);
        assert(self.model() =~= old(self).model().inserted(link_id@, slot));
    }

    /// A hole is gone.
    pub fn remove(&mut self, link_id: PeerLinkId)
        ensures
            final(self).index() == old(self).index().remove(link_id@),
            final(self).live() == if old(self).index().contains_key(link_id@) {
                old(self).live().remove(old(self).index()[link_id@])
            } else {
                old(self).live()
            },
            final(self).model() == old(self).model().removed(link_id@),
    {
        match self.index.get(&link_id) {
            Some(slot) => {
                let slot: u8 = *slot;
                self.index.remove(&link_id);
                self.by_slot.remove(&slot);
                assert(self.model() =~= old(self).model().removed(link_id@));
            },
            None => {
                assert(self.index().remove(link_id@) =~= self.index());
            },
        }
    }

    pub fn live_count(&self) -> (count: usize)
        ensures
            self.live().dom().finite(),
            count == self.live().dom().len(),
    {
        self.by_slot.len()
    }

    /// What sends through the hole of a slot, if it is live.
    pub fn link(&self, slot: u8) -> (link: Option<&L>)
        ensures
            link is Some <==> self.live().contains_key(slot),
            link matches Some(l) ==> *l == self.live()[slot],
    {
        self.by_slot.get(&slot)
    }

    /// The slots of the live holes, in no particular order.
    pub fn slots(&self) -> (slots: Vec<u8>)
        ensures
            slots@.no_duplicates(),
            slots@.to_set() == self.live().dom(),
            slots@.len() == self.live().dom().len(),
    {
        let mut slots: Vec<u8> = Vec::new();
        let ghost keys = self.by_slot.keys().remaining();
        for slot in listed: self.by_slot.keys()
            invariant
                listed.seq() == keys,
                slots@ == keys.unref().take(listed.index()),
        {
            slots.push(*slot);
            assert(slots@ =~= keys.unref().take(listed.index() + 1));
        }
        assert(slots@ =~= keys.unref());
        assert forall|i: int, k: int| 0 <= i < k < slots@.len() implies slots@[i] != slots@[k] by {
            assert(keys[i] != keys[k]);
        }
        slots
    }
}

/// The slots that are used for sending: `max` of the live ones with the lowest numbers, or all
/// of them, where `max` is zero or there are no more.
pub open spec fn used_for_data(live: Set<u8>, max: u8, used: Seq<u8>) -> bool {
    &&& ascending(used)
    &&& used.no_duplicates()
    &&& forall|s: u8| #[trigger] used.contains(s) ==> live.contains(s)
    &&& used.len() == if max > 0 && max < live.len() {
        max as nat
    } else {
        live.len()
    }
    &&& forall|s: u8| #[trigger]
        live.contains(s) && !used.contains(s) && used.len() > 0 ==> used.last() < s
}

/// The slots that a choice looks at: all live ones, or [`TARGET_LINKS`] of them, where there are
/// more. Which ones these are then is not told.
pub open spec fn looked_at(live: Set<u8>, seen: Set<u8>) -> bool {
    &&& seen.subset_of(live)
    &&& live.len() <= TARGET_LINKS ==> seen == live
    &&& live.len() > TARGET_LINKS ==> seen.len() == TARGET_LINKS
}

/// The slot is the one that the generator falls on among those left of the cycle, and the
/// generator goes one step on.
pub open spec fn draws(before: SlotPicker, used: Seq<u8>, slot: u8, after: SlotPicker) -> bool {
    let slots = bag(before.remaining(), used);
    let index = shifted(before.random()) as int % slots.len() as int;
    &&& 0 <= index < slots.len()
    &&& slot == slots[index]
    &&& after.remaining() == taken(slots, index)
    &&& after.random() == shifted(before.random())
}

/// Why a packet cannot be sent.
#[derive(Clone, Copy, Debug, PartialEq, Eq, Structural)]
pub enum SendError {
    /// It is longer than [`MAX_DATA_LEN`].
    TooLong,
    /// No hole is live.
    NoHoles,
}

/// The set of holes to one peer, as far as sending is concerned.
pub struct MultiLink<L> {
    pub registry: LinkRegistry<L>,
    pub my_peer_id: Guid,
    pub peer_id: Guid,
    pub picker: SlotPicker,
    pub wrap_seq: SeqCounters,
    pub data_holes: u8,
}

/// Sorted slots without the higher ones.
proof fn lemma_lowest(slots: Seq<u8>, sorted: Seq<u8>, live: Set<u8>, max: u8, count: int)
    requires
        slots.no_duplicates(),
        slots.to_set() == live,
        live.len() == slots.len(),
        sorted.to_multiset() == slots.to_multiset(),
        sorted.len() == slots.len(),
        ascending(sorted),
        count == if max > 0 && max < slots.len() {
            max as int
        } else {
            slots.len() as int
        },
    ensures
        used_for_data(live, max, sorted.take(count)),
{
    broadcast use group_to_multiset_ensures;

    let used = sorted.take(count);
    slots.lemma_multiset_has_no_duplicates();
    assert(sorted.no_duplicates()) by {
        sorted.lemma_multiset_has_no_duplicates_conv();
    }
    assert forall|s: u8| sorted.contains(s) <==> live.contains(s) by {
        assert(sorted.contains(s) <==> sorted.to_multiset().count(s) > 0);
        assert(slots.contains(s) <==> slots.to_multiset().count(s) > 0);
        assert(slots.to_set().contains(s) <==> slots.contains(s));
    }
    assert forall|s: u8| #[trigger] used.contains(s) implies live.contains(s) by {
        let i = choose|i: int| 0 <= i < used.len() && used[i] == s;
        assert(sorted[i] == s);
    }
    assert forall|s: u8| #[trigger]
        live.contains(s) && !used.contains(s) && used.len() > 0 implies used.last() < s by {
        assert(sorted.contains(s));
        let i = choose|i: int| 0 <= i < sorted.len() && sorted[i] == s;
        if i < count {
            assert(used[i] == s);
        }
        assert(sorted[count - 1] <= sorted[i]);
        assert(sorted[count - 1] != sorted[i]);
    }
    assert(used.no_duplicates()) by {
        assert forall|i: int, j: int| 0 <= i < j < used.len() implies used[i] != used[j] by {
            assert(sorted[i] != sorted[j]);
        }
    }
}

impl<L> MultiLink<L> {
    /// The slots that were not used in the current cycle.
    pub open spec fn remaining(&self) -> Seq<u8> {
        self.picker.remaining()
    }

    /// The numbers of the wrapped packets.
    pub open spec fn counters(&self) -> Map<u8, u32> {
        self.wrap_seq@
    }

    /// How many holes are used for sending.
    pub open spec fn holes(&self) -> u8 {
        self.data_holes
    }

    /// Our GUID and the GUID of the peer.
    pub open spec fn peers(&self) -> (Guid, Guid) {
        (self.my_peer_id, self.peer_id)
    }

    /// A set of holes of which none is open.
    pub fn new(my_peer_id: Guid, peer_id: Guid, options: &MultiLinkOptions) -> (link: Self)
        ensures
            link.registry.live() == Map::<u8, L>::empty(),
            link.registry.index() == Map::<Seq<u8>, u8>::empty(),
            link.remaining() == Seq::<u8>::empty(),
            link.picker.random() % 2 == 1,
            link.counters() == Map::<u8, u32>::empty(),
            link.holes() == options.data_holes,
            link.peers() == (my_peer_id, peer_id),
    {
        MultiLink {
            registry: LinkRegistry::new(),
            my_peer_id,
            peer_id,
            picker: SlotPicker::default(),
            wrap_seq: SeqCounters::default(),
            data_holes: options.data_holes,
        }
    }

    /// Chooses the hole for a packet: a random one among those that are used for sending and left
    /// of the cycle.
    pub fn choose_link(&mut self, payload_len: usize) -> (slot: Result<u8, SendError>)
        ensures
            final(self).registry == old(self).registry,
            final(self).counters() == old(self).counters(),
            final(self).holes() == old(self).holes(),
            final(self).peers() == old(self).peers(),
            slot == Err::<u8, SendError>(SendError::TooLong) <==> payload_len > MAX_DATA_LEN,
            slot == Err::<u8, SendError>(SendError::NoHoles) <==> payload_len <= MAX_DATA_LEN
                && old(self).registry.live().dom().len() == 0,
            slot is Err ==> final(self).picker.random() == old(self).picker.random(),
            slot == Err::<u8, SendError>(SendError::TooLong) ==> final(self).remaining() == old(
                self,
            ).remaining(),
            slot == Err::<u8, SendError>(SendError::NoHoles) ==> final(self).remaining()
                == Seq::<u8>::empty(),
            slot matches Ok(s) ==> old(self).registry.live().contains_key(s),
            slot matches Ok(s) ==> exists|seen: Set<u8>, used: Seq<u8>|
                {
                    &&& looked_at(old(self).registry.live().dom(), seen)
                    &&& #[trigger] used_for_data(seen, old(self).holes(), used)
                    &&& picks(old(self).remaining(), used, s, final(self).remaining())
                    &&& draws(old(self).picker, used, s, final(self).picker)
                },
    {
        if payload_len > MAX_DATA_LEN {
            return Err(SendError::TooLong);
        }
        let mut slots: Vec<u8> = self.registry.slots();
        let ghost all = slots@;
        while slots.len() > 10
            invariant
                slots@.len() <= all.len(),
                slots@ == all.take(slots@.len() as int),
                all.len() > 10 ==> slots@.len() >= 10,
                all.len() <= 10 ==> slots@ == all,
            decreases slots@.len(),
        {
            let ghost before = slots@;
            let _skipped = slots.pop();
            assert(slots@ =~= all.take(before.len() - 1));
        }
        let ghost listed = slots@;
        let count: usize = limit_slots(slots.as_mut_slice(), self.data_holes);
        let ghost live = self.registry.live().dom();
        let ghost seen = listed.to_set();
        let ghost used = slots@.take(count as int);
        proof {
            broadcast use group_to_multiset_ensures;

            assert(listed.no_duplicates()) by {
                assert forall|i: int, k: int| 0 <= i < k < listed.len() implies listed[i] != listed[k] by {
                    assert(all[i] != all[k]);
                }
            }
            listed.unique_seq_to_set();
            assert forall|s: u8| #[trigger] seen.contains(s) implies live.contains(s) by {
                let i = choose|i: int| 0 <= i < listed.len() && listed[i] == s;
                assert(all[i] == s);
                assert(all.contains(s));
                assert(all.to_set().contains(s));
            }
            assert(looked_at(live, seen));
            lemma_lowest(listed, slots@, seen, self.data_holes, count as int);
            assert forall|s: u8| #[trigger] used.contains(s) implies live.contains(s) by {
                assert(seen.contains(s));
            }
        }
        assert(slots@.subrange(0, count as int) =~= used);
        let picked = self.picker.pick_random(vstd::slice::slice_subrange(slots.as_slice(), 0, count));
        match picked {
            Some(slot) => {
                proof {
                    super::picker::law_dead_slots_are_not_picked(
                        old(self).remaining(),
                        used,
                        slot,
                        self.remaining(),
                    );
                    assert(used_for_data(seen, old(self).holes(), used));
                    assert(picks(old(self).remaining(), used, slot, self.remaining()));
                    assert(draws(old(self).picker, used, slot, self.picker));
                }
                Ok(slot)
            },
            None => {
                assert(used.len() == 0);
                assert(self.remaining() =~= Seq::<u8>::empty());
                Err(SendError::NoHoles)
            },
        }
    }

    /// Chooses the hole for a packet of a client and takes the next number of the client.
    pub fn next_wrapped(&mut self, client_id: u8, payload_len: usize) -> (sent: Result<
        (u8, u64),
        SendError,
    >)
        ensures
            final(self).registry == old(self).registry,
            final(self).holes() == old(self).holes(),
            final(self).peers() == old(self).peers(),
            sent == Err::<(u8, u64), SendError>(SendError::TooLong) <==> payload_len
                > MAX_DATA_LEN,
            sent == Err::<(u8, u64), SendError>(SendError::NoHoles) <==> payload_len
                <= MAX_DATA_LEN && old(self).registry.live().dom().len() == 0,
            sent is Err ==> final(self).counters() == old(self).counters(),
            sent is Err ==> final(self).picker.random() == old(self).picker.random(),
            sent == Err::<(u8, u64), SendError>(SendError::TooLong) ==> final(self).remaining()
                == old(self).remaining(),
            sent == Err::<(u8, u64), SendError>(SendError::NoHoles) ==> final(self).remaining()
                == Seq::<u8>::empty(),
            sent matches Ok((slot, seq)) ==> {
                &&& old(self).registry.live().contains_key(slot)
                &&& seq == upcoming(old(self).counters(), client_id)
                &&& final(self).counters() == old(self).counters().insert(
                    client_id,
                    upcoming(old(self).counters(), client_id).wrapping_add(1),
                )
            },
            sent matches Ok((slot, seq)) ==> exists|seen: Set<u8>, used: Seq<u8>|
                {
                    &&& looked_at(old(self).registry.live().dom(), seen)
                    &&& #[trigger] used_for_data(seen, old(self).holes(), used)
                    &&& picks(old(self).remaining(), used, slot, final(self).remaining())
                    &&& draws(old(self).picker, used, slot, final(self).picker)
                },
    {
        match self.choose_link(payload_len) {
            Ok(slot) => {
                let seq: u64 = self.wrap_seq.next(client_id);
                Ok((slot, seq))
            },
            Err(e) => Err(e),
        }
    }

    pub fn live_count(&self) -> (count: usize)
        ensures
            self.registry.live().dom().finite(),
            count == self.registry.live().dom().len(),
    {
        self.registry.live_count()
    }

    /// The slots of the live holes in ascending order.
    pub fn live_slots(&self) -> (slots: Vec<u8>)
        ensures
            used_for_data(self.registry.live().dom(), 0, slots@),
    {
        let mut slots: Vec<u8> = self.registry.slots();
        let ghost all = slots@;
        let _count: usize = limit_slots(slots.as_mut_slice(), 0);
        proof {
            lemma_lowest(
                all,
                slots@,
                self.registry.live().dom(),
                0,
                slots@.len() as int,
            );
            assert(slots@.take(slots@.len() as int) =~= slots@);
        }
        slots
    }

    pub fn my_peer_id(&self) -> (id: Guid)
        ensures
            id == self.peers().0,
    {
        self.my_peer_id
    }

    pub fn peer_id(&self) -> (id: Guid)
        ensures
            id == self.peers().1,
    {
        self.peer_id
    }
}

/// A packet is refused if it is longer than 1400 bytes, or no hole is live; else it goes through a
/// live hole. The holes themselves are left as they are.
pub proof fn law_packets_go_through_live_holes<L>(payload_len: usize)
    ensures
        forall|m: &mut MultiLink<L>, slot: Result<u8, SendError>| #[trigger]
            call_ensures(MultiLink::<L>::choose_link, (m, payload_len), slot) ==> {
                let live = (*m).registry.live().dom();
                &&& payload_len > 1400 ==> slot == Err::<u8, SendError>(SendError::TooLong)
                &&& payload_len <= 1400 && live.len() == 0 ==> slot == Err::<u8, SendError>(
                    SendError::NoHoles,
                )
                &&& payload_len <= 1400 && live.len() > 0 ==> slot is Ok && live.contains(
                    slot->Ok_0,
                )
                &&& final(m).registry == (*m).registry
            },
{
    assert forall|m: &mut MultiLink<L>, slot: Result<u8, SendError>| #[trigger]
            call_ensures(MultiLink::<L>::choose_link, (m, payload_len), slot) implies {
                let live = (*m).registry.live().dom();
                &&& payload_len > 1400 ==> slot == Err::<u8, SendError>(SendError::TooLong)
                &&& payload_len <= 1400 && live.len() == 0 ==> slot == Err::<u8, SendError>(
                    SendError::NoHoles,
                )
                &&& payload_len <= 1400 && live.len() > 0 ==> slot is Ok && live.contains(
                    slot->Ok_0,
                )
                &&& final(m).registry == (*m).registry
            } by {
        if let Err(e) = slot {
            assert(e is TooLong || e is NoHoles);
        }
    }
}

/// Where only so many holes are to carry data, those with the lowest slots do: fewer live slots
/// than that lie below the one that is chosen.
pub proof fn law_the_lowest_holes_carry_data<L>(payload_len: usize)
    ensures
        forall|m: &mut MultiLink<L>, slot: Result<u8, SendError>| #[trigger]
            call_ensures(MultiLink::<L>::choose_link, (m, payload_len), slot) && slot is Ok
                && (*m).registry.live().dom().finite() && (*m).registry.live().dom().len() <= 10 && (
            *m).holes() > 0 ==> (*m).registry.live().dom().filter(
                |s: u8| s < slot->Ok_0,
            ).len() < (*m).holes(),
{
    assert forall|m: &mut MultiLink<L>, slot: Result<u8, SendError>| #[trigger]
        call_ensures(MultiLink::<L>::choose_link, (m, payload_len), slot) && slot is Ok
            && (*m).registry.live().dom().finite() && (*m).registry.live().dom().len() <= 10 && (
        *m).holes() > 0 implies (*m).registry.live().dom().filter(|s: u8| s < slot->Ok_0).len() < (
    *m).holes() by {
        let live = (*m).registry.live().dom();
        let s = slot->Ok_0;
        let (seen, used) = choose|seen: Set<u8>, used: Seq<u8>|
            {
                &&& looked_at(live, seen)
                &&& #[trigger] used_for_data(seen, (*m).holes(), used)
                &&& picks((*m).remaining(), used, s, final(m).remaining())
                &&& draws((*m).picker, used, s, final(m).picker)
            };
        super::picker::law_dead_slots_are_not_picked(
            (*m).remaining(),
            used,
            s,
            final(m).remaining(),
        );
        assert(used.contains(s));
        let lower = live.filter(|x: u8| x < s);
        let others = used.to_set().remove(s);
        used.unique_seq_to_set();
        assert forall|x: u8| #[trigger] lower.contains(x) implies others.contains(x) by {
            if !used.contains(x) {
                let k = choose|k: int| 0 <= k < used.len() && used[k] == s;
                assert(used[k] <= used[used.len() - 1]);
                assert(used.last() < x);
            }
        }
        vstd::set_lib::lemma_len_subset(lower, others);
    }
}

/// A hole that is listed is found under its slot until it is taken out by its identifier; what was
/// listed under the slot before is replaced, and every other slot stays as it is.
pub proof fn law_holes_are_found_by_their_slots<L>(link_id: PeerLinkId, slot: u8, link: L, other: u8)
    requires
        other != slot,
    ensures
        forall|r: &mut LinkRegistry<L>| #[trigger]
            call_ensures(LinkRegistry::<L>::insert, (r, link_id, slot, link), ()) ==> {
                &&& final(r).live().contains_key(slot) && final(r).live()[slot] == link
                &&& final(r).index().contains_key(link_id@) && final(r).index()[link_id@] == slot
                &&& final(r).live().contains_key(other) <==> (*r).live().contains_key(other)
                &&& final(r).live().contains_key(other) ==> final(r).live()[other] == (
                *r).live()[other]
            },
        forall|r: &mut LinkRegistry<L>| #[trigger]
            call_ensures(LinkRegistry::<L>::remove, (r, link_id), ()) ==> {
                &&& !final(r).index().contains_key(link_id@)
                &&& (*r).index().contains_key(link_id@) && (*r).index()[link_id@] == slot
                    ==> !final(r).live().contains_key(slot) && (final(r).live().contains_key(other)
                    <==> (*r).live().contains_key(other))
                &&& !(*r).index().contains_key(link_id@) ==> final(r).live() == (*r).live()
            },
{
}

/// A client's wrapped packets are numbered one after the other, and only those that get a hole.
pub proof fn law_wrapped_packets_are_numbered<L>(client_id: u8, payload_len: usize)
    ensures
        forall|m: &mut MultiLink<L>, sent: Result<(u8, u64), SendError>| #[trigger]
            call_ensures(MultiLink::<L>::next_wrapped, (m, client_id, payload_len), sent) ==> {
                &&& sent is Ok <==> payload_len <= 1400 && (*m).registry.live().dom().len() > 0
                &&& sent is Err ==> final(m).counters() == (*m).counters()
                &&& sent matches Ok((slot, seq)) ==> {
                    &&& (*m).registry.live().contains_key(slot)
                    &&& (*m).counters().contains_key(client_id) ==> seq == (*m).counters()[client_id]
                    &&& !(*m).counters().contains_key(client_id) ==> seq == 0
                    &&& seq < u32::MAX ==> final(m).counters() == (*m).counters().insert(
                        client_id,
                        (seq + 1) as u32,
                    )
                }
            },
{
    assert forall|m: &mut MultiLink<L>, sent: Result<(u8, u64), SendError>| #[trigger]
            call_ensures(MultiLink::<L>::next_wrapped, (m, client_id, payload_len), sent) implies {
                &&& sent is Ok <==> payload_len <= 1400 && (*m).registry.live().dom().len() > 0
                &&& sent is Err ==> final(m).counters() == (*m).counters()
                &&& sent matches Ok((slot, seq)) ==> {
                    &&& (*m).registry.live().contains_key(slot)
                    &&& (*m).counters().contains_key(client_id) ==> seq == (*m).counters()[client_id]
                    &&& !(*m).counters().contains_key(client_id) ==> seq == 0
                    &&& seq < u32::MAX ==> final(m).counters() == (*m).counters().insert(
                        client_id,
                        (seq + 1) as u32,
                    )
                }
            } by {
        if let Err(e) = sent {
            assert(e is TooLong || e is NoHoles);
        }
    }
}

/// Peers start without holes, know who they are, and count what they have: as many holes as slots
/// are listed, each slot once, and those for data in ascending order.
pub proof fn law_a_peer_starts_without_holes<L>(
    me: Guid,
    peer: Guid,
    options: &MultiLinkOptions,
    start: MultiLink<L>,
    link: &MultiLink<L>,
    count: usize,
    slots: Vec<u8>,
    mine: Guid,
    theirs: Guid,
    i: int,
    j: int,
)
    requires
        call_ensures(MultiLink::<L>::new, (me, peer, options), start),
        call_ensures(MultiLink::<L>::live_count, (link,), count),
        call_ensures(MultiLink::<L>::live_slots, (link,), slots),
        call_ensures(MultiLink::<L>::my_peer_id, (&start,), mine),
        call_ensures(MultiLink::<L>::peer_id, (&start,), theirs),
    ensures
        mine == me && theirs == peer,
        start.registry.live() == Map::<u8, L>::empty(),
        start.holes() == options.data_holes,
        start.counters() == Map::<u8, u32>::empty(),
        slots@.len() == count,
        0 <= i < slots@.len() ==> link.registry.live().contains_key(slots@[i]),
        0 <= i < j < slots@.len() ==> slots@[i] < slots@[j],
{
    if 0 <= i < slots@.len() {
        assert(slots@.contains(slots@[i]));
        assert(link.registry.live().dom().contains(slots@[i]));
    }
}

/// The registry finds the hole of a slot, and lists every slot that has one, once.
pub proof fn law_the_registry_lists_its_holes<L>(
    registry: &LinkRegistry<L>,
    slot: u8,
    link: Option<&L>,
    slots: Vec<u8>,
    count: usize,
    fresh: LinkRegistry<L>,
)
    requires
        call_ensures(LinkRegistry::<L>::link, (registry, slot), link),
        call_ensures(LinkRegistry::<L>::slots, (registry,), slots),
        call_ensures(LinkRegistry::<L>::live_count, (registry,), count),
        call_ensures(LinkRegistry::<L>::new, (), fresh),
    ensures
        link is Some <==> slots@.contains(slot),
        link matches Some(l) ==> registry.live().contains_key(slot) && *l == registry.live()[slot],
        slots@.no_duplicates(),
        slots@.len() == count,
        !fresh.live().contains_key(slot),
{
    assert(slots@.to_set().contains(slot) <==> slots@.contains(slot));
    assert(registry.live().dom().contains(slot) <==> registry.live().contains_key(slot));
}

} // verus!
