//! The choice of a hole for the next packet.

use super::TARGET_LINKS;
use crate::bytes::read_le;
use crate::guid::Guid;
use vstd::prelude::*;
use vstd::seq_lib::group_to_multiset_ensures;
use vstd::slice::slice_subrange;

verus! {

/// A fast generator of random numbers (xorshift with 32 bits). It spreads the load and has
/// nothing to do with secrets.
#[derive(Clone, Copy, Debug)]
pub struct XorShift32 {
    pub state: u32,
}

/// One step of the generator.
pub open spec fn shifted(x: u32) -> u32 {
    let a = x ^ (x << 13u32);
    let b = a ^ (a >> 17u32);
    b ^ (b << 5u32)
}

impl XorShift32 {
    /// A generator with a random start, which is odd and so not zero.
    pub fn seeded() -> (rng: Self)
        ensures
            rng.state % 2 == 1,
    {
        let bytes = Guid::random().to_bytes();
        Self::starting_at(read_le(slice_subrange(bytes.as_slice(), 0, 4)) as u32)
    }

    /// A generator that starts at a number with its lowest bit set.
    pub fn starting_at(seed: u32) -> (rng: Self)
        ensures
            rng.state == seed | 1,
            rng.state % 2 == 1,
    {
        assert((seed | 1) % 2 == 1) by (bit_vector);
        XorShift32 { state: seed | 1 }
    }

    pub fn next(&mut self) -> (x: u32)
        ensures
            x == shifted(old(self).state),
            final(self).state == x,
    {
        let mut x: u32 = self.state;
        x = x ^ (x << 13u32);
        x = x ^ (x >> 17u32);
        x = x ^ (x << 5u32);
        self.state = x;
        x
    }

    /// A number below `n`.
    pub fn below(&mut self, n: usize) -> (x: usize)
        requires
            n > 0,
        ensures
            x == shifted(old(self).state) as int % n as int,
            x < n,
            final(self).state == shifted(old(self).state),
    {
        self.next() as usize % n
    }
}

/// A generator that did not start at zero never comes to zero, where it would stay.
pub proof fn law_generator_never_stops(x: u32)
    requires
        x != 0,
    ensures
        shifted(x) != 0,
{
    assert(x ^ (x << 13u32) != 0) by (bit_vector)
        requires
            x != 0,
    ;
    let a = x ^ (x << 13u32);
    assert(a ^ (a >> 17u32) != 0) by (bit_vector)
        requires
            a != 0,
    ;
    let b = a ^ (a >> 17u32);
    assert(b ^ (b << 5u32) != 0) by (bit_vector)
        requires
            b != 0,
    ;
}

/// The slots of a list that are live.
pub open spec fn kept(slots: Seq<u8>, live: Seq<u8>) -> Seq<u8>
    decreases slots.len(),
{
    if slots.len() == 0 {
        Seq::empty()
    } else if live.contains(slots.last()) {
        kept(slots.drop_last(), live).push(slots.last())
    } else {
        kept(slots.drop_last(), live)
    }
}

/// The slots to choose among: those that are left of the cycle and live, or, where there are
/// none, all that are live (as many as there are slots).
pub open spec fn bag(remaining: Seq<u8>, live: Seq<u8>) -> Seq<u8> {
    if kept(remaining, live).len() > 0 {
        kept(remaining, live)
    } else if live.len() > TARGET_LINKS {
        live.take(TARGET_LINKS as int)
    } else {
        live
    }
}

/// The slots without the one at `index`, in whose place the last one moves.
pub open spec fn taken(slots: Seq<u8>, index: int) -> Seq<u8> {
    slots.update(index, slots.last()).drop_last()
}

/// The choice of a hole: at random among those that were not used in the current cycle. When all
/// were used, a new cycle starts. So the order cannot be foretold and the load is even. Slots
/// that are no longer live leave the cycle; new ones join the next.
pub struct SlotPicker {
    /// The slots that were not used in this cycle.
    remaining: [u8; 10],
    len: usize,
    rng: XorShift32,
}

impl SlotPicker {
    #[verifier::type_invariant]
    spec fn wf(self) -> bool {
        self.len <= 10
    }

    /// The slots that were not used in this cycle.
    pub closed spec fn remaining(&self) -> Seq<u8> {
        self.remaining@.take(self.len as int)
    }

    /// The state of the generator.
    pub closed spec fn random(&self) -> u32 {
        self.rng.state
    }

    /// A picker at the start of a cycle.
    pub fn starting_with(rng: XorShift32) -> (picker: Self)
        ensures
            picker.remaining() == Seq::<u8>::empty(),
            picker.random() == rng.state,
    {
        let picker = SlotPicker { remaining: [0u8; 10], len: 0, rng };
        assert(picker.remaining() =~= Seq::<u8>::empty());
        picker
    }

    /// Drops the slots that are not live and starts a new cycle when none is left.
    fn fill(&mut self, live: &[u8])
        ensures
            final(self).remaining() == bag(old(self).remaining(), live@),
            final(self).remaining().len() <= 10,
            final(self).random() == old(self).random(),
            final(self).len == final(self).remaining().len(),
    {
        proof {
            use_type_invariant(&*self);
        }
        let ghost before = self.remaining();
        let mut all: [u8; 10] = self.remaining;
        let len: usize = self.len;
        let mut count: usize = 0;
        let mut i: usize = 0;
        proof {
            assert(before.take(0) =~= Seq::<u8>::empty());
            assert(all@.take(0) =~= Seq::<u8>::empty());
        }
        while i < len
            invariant
                count <= i <= len <= 10,
                before.len() == len,
                forall|k: int| i <= k < len ==> all@[k] == before[k],
                all@.take(count as int) == kept(before.take(i as int), live@),
            decreases len - i,
        {
            proof {
                assert(before.take(i + 1).drop_last() =~= before.take(i as int));
                assert(before.take(i + 1).last() == before[i as int]);
            }
            let ghost previous = all@;
            let slot: u8 = all[i];
            if is_live(live, slot) {
                all[count] = slot;
                count += 1;
                assert(all@.take(count as int) =~= previous.take(count - 1).push(slot));
            }
            i += 1;
        }
        assert(before.take(len as int) =~= before);
        if count == 0 {
            let size: usize = if live.len() > 10 {
                10
            } else {
                live.len()
            };
            let mut k: usize = 0;
            while k < size
                invariant
                    k <= size <= 10,
                    size <= live@.len(),
                    forall|j: int| 0 <= j < k ==> all@[j] == live@[j],
                decreases size - k,
            {
                all[k] = live[k];
                k += 1;
            }
            count = size;
            assert(all@.take(count as int) =~= bag(before, live@));
        }
        self.remaining = all;
        self.len = count;
    }

    /// Takes the slot at `index` out of the cycle.
    fn take(&mut self, index: usize) -> (slot: u8)
        requires
            index < old(self).remaining().len(),
        ensures
            slot == old(self).remaining()[index as int],
            final(self).remaining() == taken(old(self).remaining(), index as int),
            final(self).random() == old(self).random(),
    {
        proof {
            use_type_invariant(&*self);
        }
        let mut all: [u8; 10] = self.remaining;
        let last: usize = self.len - 1;
        let slot: u8 = all[index];
        all[index] = all[last];
        let ghost before = self.remaining();
        self.remaining = all;
        self.len = last;
        assert(self.remaining() =~= taken(before, index as int));
        slot
    }

    /// Picks a slot. `random_below(n)` is a number below `n`; it is asked once, with the number of
    /// slots to choose among, and not at all where there are none.
    pub fn pick<F: FnOnce(usize) -> usize>(&mut self, live: &[u8], random_below: F) -> (slot:
        Option<u8>)
        requires
            bag(old(self).remaining(), live@).len() > 0 ==> random_below.requires(
                (bag(old(self).remaining(), live@).len() as usize,),
            ),
            bag(old(self).remaining(), live@).len() > 0 ==> forall|r: usize| #[trigger]
                random_below.ensures((bag(old(self).remaining(), live@).len() as usize,), r)
                    ==> r < bag(old(self).remaining(), live@).len(),
        ensures
            slot is None <==> bag(old(self).remaining(), live@).len() == 0,
            slot is None ==> final(self).remaining() == Seq::<u8>::empty(),
            slot matches Some(s) ==> exists|index: usize|
                {
                    &&& index < bag(old(self).remaining(), live@).len()
                    &&& #[trigger] random_below.ensures(
                        (bag(old(self).remaining(), live@).len() as usize,),
                        index,
                    )
                    &&& s == bag(old(self).remaining(), live@)[index as int]
                    &&& final(self).remaining() == taken(
                        bag(old(self).remaining(), live@),
                        index as int,
                    )
                },
            slot matches Some(s) ==> picks(
                old(self).remaining(),
                live@,
                s,
                final(self).remaining(),
            ),
            final(self).random() == old(self).random(),
    {
        self.fill(live);
        if self.len == 0 {
            assert(self.remaining() =~= Seq::<u8>::empty());
            return None;
        }
        let index: usize = random_below(self.len);
        let ghost chosen = index;
        let slot = self.take(index);
        proof {
            assert(random_below.ensures(
                (bag(old(self).remaining(), live@).len() as usize,),
                chosen,
            ));
        }
        Some(slot)
    }

    /// Picks a slot with the generator of the picker.
    pub fn pick_random(&mut self, live: &[u8]) -> (slot: Option<u8>)
        ensures
            ({
                let slots = bag(old(self).remaining(), live@);
                let index = shifted(old(self).random()) as int % slots.len() as int;
                if slots.len() == 0 {
                    &&& slot is None
                    &&& final(self).remaining() == slots
                    &&& final(self).random() == old(self).random()
                } else {
                    &&& 0 <= index < slots.len()
                    &&& slot == Some(slots[index])
                    &&& final(self).remaining() == taken(slots, index)
                    &&& final(self).random() == shifted(old(self).random())
                    &&& picks(old(self).remaining(), live@, slot->0, final(self).remaining())
                }
            }),
    {
        self.fill(live);
        if self.len == 0 {
            return None;
        }
        let mut rng: XorShift32 = self.rng;
        let index: usize = rng.below(self.len);
        let slot = self.take(index);
        proof {
            use_type_invariant(&*self);
        }
        self.rng = rng;
        Some(slot)
    }
}

impl Default for SlotPicker {
    fn default() -> (picker: Self)
        ensures
            picker.remaining() == Seq::<u8>::empty(),
            picker.random() % 2 == 1,
    {
        SlotPicker::starting_with(XorShift32::seeded())
    }
}

fn is_live(live: &[u8], slot: u8) -> (is: bool)
    ensures
        is == live@.contains(slot),
{
    let mut i: usize = 0;
    while i < live.len()
        invariant
            i <= live@.len(),
            forall|k: int| 0 <= k < i ==> live@[k] != slot,
        decreases live@.len() - i,
    {
        if live[i] == slot {
            assert(live@[i as int] == slot);
            return true;
        }
        i += 1;
    }
    false
}

/// The numbers ascend.
pub open spec fn ascending(s: Seq<u8>) -> bool {
    forall|i: int, j: int| 0 <= i <= j < s.len() ==> s[i] <= s[j]
}

fn insert_sorted(sorted: &mut Vec<u8>, slot: u8)
    requires
        ascending(old(sorted)@),
    ensures
        ascending(final(sorted)@),
        final(sorted)@.to_multiset() == old(sorted)@.to_multiset().insert(slot),
        final(sorted)@.len() == old(sorted)@.len() + 1,
{
    broadcast use group_to_multiset_ensures;

    let mut at: usize = 0;
    while at < sorted.len() && sorted[at] < slot
        invariant
            sorted@ == old(sorted)@,
            at <= sorted@.len(),
            forall|k: int| 0 <= k < at ==> sorted@[k] < slot,
        decreases sorted@.len() - at,
    {
        at += 1;
    }
    let ghost before = sorted@;
    sorted.insert(at, slot);
    assert(ascending(sorted@)) by {
        assert forall|i: int, j: int| 0 <= i <= j < sorted@.len() implies sorted@[i]
            <= sorted@[j] by {
            if j < at {
                assert(sorted@[j] == before[j] && sorted@[i] == before[i]);
            } else if i < at {
                assert(sorted@[i] == before[i]);
                if j > at {
                    assert(sorted@[j] == before[j - 1]);
                }
            } else {
                if j > at {
                    assert(sorted@[j] == before[j - 1]);
                    assert(before[at as int] <= before[j - 1]);
                }
                if i > at {
                    assert(sorted@[i] == before[i - 1]);
                }
            }
        }
    }
}

/// Sorts the slots in place and tells how many of them, from the lowest on, are used for
/// sending: at most `max`, or all, where `max` is zero.
pub fn limit_slots(slots: &mut [u8], max: u8) -> (count: usize)
    ensures
        final(slots)@.len() == old(slots)@.len(),
        ascending(final(slots)@),
        final(slots)@.to_multiset() == old(slots)@.to_multiset(),
        count == if max > 0 && max < old(slots)@.len() {
            max as int
        } else {
            old(slots)@.len() as int
        },
{
    broadcast use group_to_multiset_ensures;

    let size: usize = slots.len();
    let mut sorted: Vec<u8> = Vec::new();
    let mut i: usize = 0;
    assert(slots@.take(0) =~= Seq::<u8>::empty());
    assert(sorted@ =~= Seq::<u8>::empty());
    while i < size
        invariant
            slots@ == old(slots)@,
            i <= size == slots@.len(),
            ascending(sorted@),
            sorted@.len() == i,
            sorted@.to_multiset() == slots@.take(i as int).to_multiset(),
        decreases size - i,
    {
        insert_sorted(&mut sorted, slots[i]);
        proof {
            let before = slots@.take(i as int);
            assert(slots@.take(i + 1) =~= before.push(slots@[i as int]));
            assert(before.push(slots@[i as int]).to_multiset() =~= before.to_multiset().insert(
                slots@[i as int],
            )) by {
                broadcast use group_to_multiset_ensures;

            }
        }
        i += 1;
    }
    assert(slots@.take(size as int) =~= slots@);
    let mut k: usize = 0;
    while k < size
        invariant
            k <= size == slots@.len() == sorted@.len(),
            forall|j: int| 0 <= j < k ==> slots@[j] == sorted@[j],
        decreases size - k,
    {
        slots[k] = sorted[k];
        k += 1;
    }
    assert(slots@ =~= sorted@);
    if max > 0 && (max as usize) < size {
        max as usize
    } else {
        size
    }
}

/// `slot` may be picked before `after` remains.
pub open spec fn picks(before: Seq<u8>, live: Seq<u8>, slot: u8, after: Seq<u8>) -> bool {
    exists|index: int|
        #![trigger taken(bag(before, live), index)]
        0 <= index < bag(before, live).len() && slot == bag(before, live)[index] && after == taken(
            bag(before, live),
            index,
        )
}

/// `slots` may be picked one after the other while the same slots stay live, and `states` is what
/// remains of the cycle before and after each of them.
pub open spec fn run_of(live: Seq<u8>, slots: Seq<u8>, states: Seq<Seq<u8>>) -> bool {
    &&& states.len() == slots.len() + 1
    &&& forall|i: int|
        0 <= i < slots.len() ==> picks(states[i], live, #[trigger] slots[i], states[i + 1])
}

proof fn lemma_kept_all(slots: Seq<u8>, live: Seq<u8>)
    requires
        forall|i: int| 0 <= i < slots.len() ==> live.contains(#[trigger] slots[i]),
    ensures
        kept(slots, live) == slots,
    decreases slots.len(),
{
    if slots.len() > 0 {
        assert forall|i: int| 0 <= i < slots.len() - 1 implies live.contains(
            #[trigger] slots.drop_last()[i],
        ) by {
            assert(slots.drop_last()[i] == slots[i]);
        }
        lemma_kept_all(slots.drop_last(), live);
        assert(slots.last() == slots[slots.len() - 1]);
        assert(slots.drop_last().push(slots.last()) =~= slots);
    }
}

proof fn lemma_taken(slots: Seq<u8>, index: int)
    requires
        0 <= index < slots.len(),
    ensures
        taken(slots, index).len() == slots.len() - 1,
        taken(slots, index).to_multiset().insert(slots[index]) == slots.to_multiset(),
        forall|k: int|
            0 <= k < slots.len() - 1 ==> slots.contains(#[trigger] taken(slots, index)[k]),
{
    broadcast use group_to_multiset_ensures;

    let moved = slots.update(index, slots.last());
    let after = taken(slots, index);
    assert(after.push(slots.last()) =~= moved);
    assert(moved.to_multiset() == after.to_multiset().insert(slots.last()));
    assert(moved.to_multiset() == slots.to_multiset().insert(slots.last()).remove(slots[index]));
    assert(after.to_multiset().insert(slots[index]) =~= slots.to_multiset()) by {
        assert(slots.to_multiset().count(slots[index]) > 0) by {
            assert(slots.contains(slots[index]));
        }
        assert forall|x: u8|
            after.to_multiset().insert(slots[index]).count(x) == slots.to_multiset().count(x) by {
            assert(moved.to_multiset().count(x) == after.to_multiset().insert(slots.last()).count(
                x,
            ));
            assert(moved.to_multiset().count(x) == slots.to_multiset().insert(
                slots.last(),
            ).remove(slots[index]).count(x));
        }
    }
    assert forall|k: int| 0 <= k < slots.len() - 1 implies slots.contains(
        #[trigger] after[k],
    ) by {
        if k == index {
            assert(slots[slots.len() - 1] == after[k]);
        } else {
            assert(slots[k] == after[k]);
        }
    }
}

/// What holds in the middle of a cycle.
proof fn lemma_cycle(live: Seq<u8>, slots: Seq<u8>, states: Seq<Seq<u8>>, n: nat)
    requires
        0 < live.len() <= TARGET_LINKS,
        run_of(live, slots, states),
        states[0].len() == 0,
        n <= slots.len(),
        n <= live.len(),
    ensures
        n > 0 ==> {
            &&& states[n as int].len() == live.len() - n
            &&& forall|k: int|
                0 <= k < states[n as int].len() ==> live.contains(#[trigger] states[n as int][k])
            &&& slots.take(n as int).to_multiset().add(states[n as int].to_multiset())
                == live.to_multiset()
        },
    decreases n,
{
    broadcast use group_to_multiset_ensures;

    if n > 0 {
        let m = (n - 1) as nat;
        lemma_cycle(live, slots, states, m);
        let before = states[m as int];
        assert(picks(before, live, slots[m as int], states[n as int]));
        let index = choose|index: int|
            #![trigger taken(bag(before, live), index)]
            0 <= index < bag(before, live).len() && slots[m as int] == bag(before, live)[index]
                && states[n as int] == taken(bag(before, live), index);
        if m == 0 {
            assert(kept(before, live) =~= Seq::<u8>::empty());
            assert(bag(before, live) == live);
        } else {
            lemma_kept_all(before, live);
            assert(bag(before, live) == before);
        }
        let from = bag(before, live);
        lemma_taken(from, index);
        assert(slots.take(n as int) =~= slots.take(m as int).push(slots[m as int]));
        assert forall|k: int| 0 <= k < states[n as int].len() implies live.contains(
            #[trigger] states[n as int][k],
        ) by {
            assert(from.contains(states[n as int][k]));
            let j = choose|j: int| 0 <= j < from.len() && from[j] == states[n as int][k];
            if m > 0 {
                assert(live.contains(before[j]));
            }
        }
        assert(slots.take(n as int).to_multiset() == slots.take(m as int).to_multiset().insert(
            slots[m as int],
        ));
        if m == 0 {
            assert(slots.take(0) =~= Seq::<u8>::empty());
            assert(slots.take(n as int).to_multiset().add(states[n as int].to_multiset())
                =~= live.to_multiset());
        } else {
            assert(slots.take(n as int).to_multiset().add(states[n as int].to_multiset())
                =~= slots.take(m as int).to_multiset().add(before.to_multiset()));
        }
    }
}

/// While the same slots stay live, every one of them is picked exactly once before any is picked
/// again, whatever the random numbers, and then a new cycle starts.
pub proof fn law_every_live_slot_is_picked_once_per_cycle(
    live: Seq<u8>,
    slots: Seq<u8>,
    states: Seq<Seq<u8>>,
)
    requires
        live.len() <= TARGET_LINKS,
        slots.len() == live.len(),
        run_of(live, slots, states),
        states[0].len() == 0,
    ensures
        slots.to_multiset() == live.to_multiset(),
        states.last().len() == 0,
{
    broadcast use group_to_multiset_ensures;

    if live.len() == 0 {
        assert(slots =~= live);
    } else {
        lemma_cycle(live, slots, states, live.len());
        assert(slots.take(live.len() as int) =~= slots);
        assert(states.last().to_multiset() =~= vstd::multiset::Multiset::empty()) by {
            assert(states.last() =~= Seq::<u8>::empty());
        }
        assert(slots.to_multiset().add(states.last().to_multiset()) =~= slots.to_multiset());
    }
}

/// A slot that is not live is never picked.
pub proof fn law_dead_slots_are_not_picked(
    before: Seq<u8>,
    live: Seq<u8>,
    slot: u8,
    after: Seq<u8>,
)
    requires
        picks(before, live, slot, after),
    ensures
        live.contains(slot),
{
    lemma_kept_are_live(before, live);
    let index = choose|index: int|
        #![trigger taken(bag(before, live), index)]
        0 <= index < bag(before, live).len() && slot == bag(before, live)[index] && after == taken(
            bag(before, live),
            index,
        );
    if kept(before, live).len() == 0 {
        assert(live[index] == slot);
    }
}

proof fn lemma_kept_are_live(slots: Seq<u8>, live: Seq<u8>)
    ensures
        forall|i: int| 0 <= i < kept(slots, live).len() ==> live.contains(#[trigger] kept(slots, live)[i]),
    decreases slots.len(),
{
    if slots.len() > 0 {
        lemma_kept_are_live(slots.drop_last(), live);
        let before = kept(slots.drop_last(), live);
        assert forall|i: int| 0 <= i < kept(slots, live).len() implies live.contains(
            #[trigger] kept(slots, live)[i],
        ) by {
            if i < before.len() {
                assert(kept(slots, live)[i] == before[i]);
            }
        }
    }
}

/// What a slot is picked from: those that are left of the cycle and live, and where there are
/// none, all live ones, or the first ten of them.
pub open spec fn choices(left: Seq<u8>, live: Seq<u8>) -> Seq<u8> {
    let usable = left.filter(|slot: u8| live.contains(slot));
    if usable.len() > 0 {
        usable
    } else if live.len() <= 10 {
        live
    } else {
        live.take(10)
    }
}

proof fn lemma_bag_is_choices(left: Seq<u8>, live: Seq<u8>)
    ensures
        kept(left, live) == left.filter(|slot: u8| live.contains(slot)),
        bag(left, live) == choices(left, live),
        live.len() == 0 ==> bag(left, live).len() == 0,
    decreases left.len(),
{
    reveal(Seq::filter);
    if left.len() > 0 {
        lemma_bag_is_choices(left.drop_last(), live);
    }
    if live.len() == 0 {
        lemma_kept_are_live(left, live);
        if kept(left, live).len() > 0 {
            assert(live.contains(kept(left, live)[0]));
        }
    }
}

/// A slot is picked wherever any is live: one that is left of the cycle, or where none of those is
/// live, any. It does not come again in the cycle, and the others that can be picked stay.
pub proof fn law_a_slot_is_picked_from_what_is_left(live: &[u8])
    ensures
        forall|p: &mut SlotPicker, slot: Option<u8>| #[trigger]
            call_ensures(SlotPicker::pick_random, (p, live), slot) ==> {
                let from = choices(p.remaining(), live@);
                &&& slot is None <==> live@.len() == 0
                &&& slot is None ==> final(p).random() == p.random()
                &&& slot matches Some(s) ==> {
                    &&& from.contains(s) && live@.contains(s)
                    &&& final(p).remaining().to_multiset().insert(s) == from.to_multiset()
                    &&& final(p).remaining().len() + 1 == from.len()
                }
            },
{
    assert forall|p: &mut SlotPicker, slot: Option<u8>| #[trigger]
        call_ensures(SlotPicker::pick_random, (p, live), slot) implies {
        let from = choices(p.remaining(), live@);
        &&& slot is None <==> live@.len() == 0
        &&& slot is None ==> final(p).random() == p.random()
        &&& slot matches Some(s) ==> {
            &&& from.contains(s) && live@.contains(s)
            &&& final(p).remaining().to_multiset().insert(s) == from.to_multiset()
            &&& final(p).remaining().len() + 1 == from.len()
        }
    } by {
        lemma_bag_is_choices(p.remaining(), live@);
        let from = bag(p.remaining(), live@);
        if from.len() > 0 {
            let index = shifted(p.random()) as int % from.len() as int;
            lemma_taken(from, index);
            law_dead_slots_are_not_picked(
                p.remaining(),
                live@,
                slot->0,
                final(p).remaining(),
            );
        }
    }
}

/// Where the random number comes from outside, it is asked for once, below the number of slots to
/// pick from, and tells the place of the slot among them.
pub proof fn law_the_number_tells_the_slot<F: FnOnce(usize) -> usize>(live: &[u8], random_below: F)
    ensures
        forall|p: &mut SlotPicker, slot: Option<u8>| #[trigger]
            call_ensures(SlotPicker::pick::<F>, (p, live, random_below), slot) ==> {
                let from = choices(p.remaining(), live@);
                &&& slot is None <==> live@.len() == 0
                &&& slot matches Some(s) ==> exists|index: usize| #[trigger]
                    random_below.ensures((from.len() as usize,), index) && index < from.len() && s
                        == from[index as int] && final(p).remaining().to_multiset().insert(s)
                        == from.to_multiset()
            },
{
    assert forall|p: &mut SlotPicker, slot: Option<u8>| #[trigger]
        call_ensures(SlotPicker::pick::<F>, (p, live, random_below), slot) implies {
        let from = choices(p.remaining(), live@);
        &&& slot is None <==> live@.len() == 0
        &&& slot matches Some(s) ==> exists|index: usize| #[trigger]
            random_below.ensures((from.len() as usize,), index) && index < from.len() && s
                == from[index as int] && final(p).remaining().to_multiset().insert(s)
                == from.to_multiset()
    } by {
        lemma_bag_is_choices(p.remaining(), live@);
        let from = bag(p.remaining(), live@);
        if let Some(s) = slot {
            let index = choose|index: usize| {
                &&& index < from.len()
                &&& #[trigger] random_below.ensures((from.len() as usize,), index)
                &&& s == from[index as int]
                &&& final(p).remaining() == taken(from, index as int)
            };
            lemma_taken(from, index as int);
            assert(random_below.ensures((from.len() as usize,), index));
        }
    }
}

/// Of the slots the lowest are used, `max` of them, or all where `max` is zero or more than there
/// are: none that is used is above one that is not.
pub proof fn law_the_lowest_slots_are_used(max: u8, i: int, j: int)
    ensures
        forall|slots: &mut [u8], count: usize| #[trigger]
            call_ensures(limit_slots, (slots, max), count) ==> {
                let (before, after) = ((*slots)@, final(slots)@);
                &&& after.to_multiset() == before.to_multiset()
                &&& max == 0 ==> count == before.len()
                &&& max > 0 ==> count <= max && (count == max || count == before.len())
                &&& count <= before.len()
                &&& 0 <= i < count <= j < after.len() ==> after[i] <= after[j]
            },
{
}

/// The generator starts at an odd number; a step shifts by 13 to the left, by 17 to the right and
/// by 5 to the left. A number below a bound is what is left of the next one by the bound.
pub proof fn law_the_generator_shifts_by_13_17_and_5(seed: u32, rng: XorShift32, n: usize)
    requires
        n > 0,
        call_ensures(XorShift32::starting_at, (seed,), rng),
    ensures
        rng.state == seed || rng.state == seed + 1,
        rng.state % 2 == 1,
        forall|r: &mut XorShift32, x: u32| #[trigger]
            call_ensures(XorShift32::next, (r,), x) ==> {
                let a = r.state ^ (r.state << 13u32);
                let b = a ^ (a >> 17u32);
                x == b ^ (b << 5u32) && final(r).state == x
            },
        forall|r: &mut XorShift32, s: &mut XorShift32, x: u32, y: usize|
            #![trigger call_ensures(XorShift32::next, (r,), x), call_ensures(XorShift32::below, (s, n), y)]
            call_ensures(XorShift32::next, (r,), x) && call_ensures(XorShift32::below, (s, n), y)
                && r.state == s.state ==> y == x as int % n as int && final(s).state
                == final(r).state,
{
    assert((seed | 1) == seed || (seed | 1) == seed + 1) by (bit_vector);
}

} // verus!
