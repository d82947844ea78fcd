//! Packets of one session that wait for a missing one: a ring indexed by the counter.

use crate::multilink::Incoming;
use vstd::prelude::*;

verus! {

/// How many counters the ring spans.
pub const RING: usize = 512;

/// A packet held back, with its counter and the moment it arrived.
pub struct Held {
    pub counter: u64,
    pub packet: Incoming,
    pub arrived: u64,
}

/// `t` is the earliest arrival among `held`.
pub open spec fn is_earliest(held: Map<u64, Held>, t: u64) -> bool {
    &&& exists|c: u64| #[trigger] held.contains_key(c) && held[c].arrived == t
    &&& forall|c: u64| #[trigger] held.contains_key(c) ==> t <= held[c].arrived
}

/// The earliest arrival among `held`.
pub open spec fn earliest(held: Map<u64, Held>) -> u64 {
    choose|t: u64| is_earliest(held, t)
}

/// `c` is the least counter of `held`.
pub open spec fn is_lowest(held: Map<u64, Held>, c: u64) -> bool {
    held.contains_key(c) && forall|d: u64| #[trigger] held.contains_key(d) ==> c <= d
}

/// The least counter of `held`.
pub open spec fn lowest(held: Map<u64, Held>) -> u64 {
    choose|c: u64| is_lowest(held, c)
}

/// The moment the wait is counted from once a packet that arrived at `arrived` is held as well.
pub open spec fn oldest_with(oldest: Option<u64>, arrived: u64) -> Option<u64> {
    match oldest {
        Some(o) => Some(if o <= arrived { o } else { arrived }),
        None => Some(arrived),
    }
}

/// The moment the wait is counted from once a packet that arrived at `arrived` has left and
/// `rest` stays.
pub open spec fn oldest_without(oldest: Option<u64>, arrived: u64, rest: Map<u64, Held>) -> Option<u64> {
    if rest.dom() == Set::<u64>::empty() {
        None
    } else if oldest == Some(arrived) {
        Some(earliest(rest))
    } else {
        oldest
    }
}

/// What a ring holds, and the moment the wait is counted from.
#[verifier::ext_equal]
pub struct RingModel {
    pub held: Map<u64, Held>,
    pub oldest: Option<u64>,
}

impl RingModel {
    /// Nothing is held.
    pub open spec fn empty() -> Self {
        RingModel { held: Map::empty(), oldest: None }
    }

    /// A packet is held as well; one with the same counter is replaced.
    pub open spec fn inserted(self, item: Held) -> Self {
        RingModel {
            held: self.held.insert(item.counter, item),
            oldest: oldest_with(self.oldest, item.arrived),
        }
    }

    /// The packet with the counter, if it is held, leaves.
    pub open spec fn removed(self, counter: u64) -> Self {
        if self.held.contains_key(counter) {
            let rest = self.held.remove(counter);
            RingModel {
                held: rest,
                oldest: oldest_without(self.oldest, self.held[counter].arrived, rest),
            }
        } else {
            self
        }
    }

    /// The wait is counted from the earliest arrival, and there is none exactly if nothing is
    /// held.
    pub open spec fn exact(self) -> bool {
        match self.oldest {
            Some(t) => is_earliest(self.held, t),
            None => self.held == Map::<u64, Held>::empty(),
        }
    }
}

/// A call of a ring.
pub enum RingCall {
    Insert(Held),
    Remove(u64),
}

/// A ring after a row of calls.
pub open spec fn ring_after(calls: Seq<RingCall>) -> RingModel
    decreases calls.len(),
{
    if calls.len() == 0 {
        RingModel::empty()
    } else {
        match calls.last() {
            RingCall::Insert(item) => ring_after(calls.drop_last()).inserted(item),
            RingCall::Remove(counter) => ring_after(calls.drop_last()).removed(counter),
        }
    }
}

/// No packet is inserted while one with its counter is held.
pub open spec fn never_replaces(calls: Seq<RingCall>) -> bool
    decreases calls.len(),
{
    calls.len() == 0 || never_replaces(calls.drop_last()) && match calls.last() {
        RingCall::Insert(item) => !ring_after(calls.drop_last()).held.contains_key(item.counter),
        RingCall::Remove(_) => true,
    }
}

/// A packet that is inserted under a new counter, or that leaves, keeps the moment exact.
pub proof fn lemma_exact_kept(ring: RingModel, item: Held, counter: u64)
    requires
        ring.held.dom().finite(),
        ring.exact(),
    ensures
        !ring.held.contains_key(item.counter) ==> ring.inserted(item).exact(),
        ring.removed(counter).exact(),
{
    if !ring.held.contains_key(item.counter) {
        let after = ring.inserted(item);
        let t = after.oldest->0;
        assert(after.held.contains_key(item.counter) && after.held[item.counter] == item);
        if ring.oldest is Some && ring.oldest->0 <= item.arrived {
            let c = choose|c: u64| #[trigger] ring.held.contains_key(c) && ring.held[c].arrived == t;
            assert(after.held.contains_key(c) && after.held[c].arrived == t);
        }
        assert forall|c: u64| #[trigger] after.held.contains_key(c) implies t <= after.held[c].arrived by {
            if c != item.counter {
                assert(ring.held.contains_key(c));
            }
        }
    }
    if ring.held.contains_key(counter) {
        let after = ring.removed(counter);
        assert(after.held.dom() =~= ring.held.dom().remove(counter));
        if after.held.dom() == Set::<u64>::empty() {
            assert(after.held =~= Map::<u64, Held>::empty());
        } else {
            lemma_earliest_exists(after.held);
            if ring.oldest != Some(ring.held[counter].arrived) {
                let t = ring.oldest->0;
                let c = choose|c: u64| #[trigger] ring.held.contains_key(c) && ring.held[c].arrived == t;
                assert(after.held.contains_key(c) && after.held[c].arrived == t);
                assert forall|d: u64| #[trigger] after.held.contains_key(d) implies t <= after.held[d].arrived by {
                    assert(ring.held.contains_key(d));
                }
            }
        }
    }
}

/// A ring in which no packet was ever replaced counts the wait from the earliest arrival of what
/// it holds, whatever else was inserted and removed, and from none exactly if it holds nothing.
pub proof fn law_ring_knows_the_earliest_arrival(calls: Seq<RingCall>)
    requires
        never_replaces(calls),
    ensures
        ring_after(calls).exact(),
        ring_after(calls).held.dom().finite(),
    decreases calls.len(),
{
    if calls.len() > 0 {
        let before = ring_after(calls.drop_last());
        law_ring_knows_the_earliest_arrival(calls.drop_last());
        match calls.last() {
            RingCall::Insert(item) => {
                lemma_exact_kept(before, item, item.counter);
            },
            RingCall::Remove(counter) => {
                if before.held.contains_key(counter) {
                    lemma_exact_kept(before, before.held[counter], counter);
                    assert(before.removed(counter).held.dom() =~= before.held.dom().remove(counter));
                }
            },
        }
    }
}

/// Some arrival among the held packets is the earliest one.
pub proof fn lemma_earliest_exists(held: Map<u64, Held>)
    requires
        held.dom().finite(),
        held.dom() != Set::<u64>::empty(),
    ensures
        is_earliest(held, earliest(held)),
    decreases held.dom().len(),
{
    let a = held.dom().choose();
    assert(held.dom().contains(a)) by {
        if forall|c: u64| !held.dom().contains(c) {
            assert(held.dom() =~= Set::<u64>::empty());
        }
    }
    let rest = held.remove(a);
    assert(rest.dom() =~= held.dom().remove(a));
    if rest.dom() == Set::<u64>::empty() {
        assert forall|d: u64| #[trigger] held.contains_key(d) implies held[a].arrived <= held[d].arrived by {
            if d != a {
                assert(rest.dom().contains(d));
            }
        }
        assert(held.contains_key(a));
        assert(is_earliest(held, held[a].arrived));
    } else {
        lemma_earliest_exists(rest);
        let t = earliest(rest);
        let c = choose|c: u64| #[trigger] rest.contains_key(c) && rest[c].arrived == t;
        let first = if held[a].arrived < t { held[a].arrived } else { t };
        assert(held.contains_key(a) && held.contains_key(c));
        assert forall|d: u64| #[trigger] held.contains_key(d) implies first <= held[d].arrived by {
            if d != a {
                assert(rest.contains_key(d));
            }
        }
        assert(is_earliest(held, first));
    }
}

/// Some held counter is the lowest one.
pub proof fn lemma_lowest_exists(held: Map<u64, Held>)
    requires
        held.dom().finite(),
        held.dom() != Set::<u64>::empty(),
    ensures
        is_lowest(held, lowest(held)),
    decreases held.dom().len(),
{
    let a = held.dom().choose();
    assert(held.dom().contains(a)) by {
        if forall|c: u64| !held.dom().contains(c) {
            assert(held.dom() =~= Set::<u64>::empty());
        }
    }
    let rest = held.remove(a);
    assert(rest.dom() =~= held.dom().remove(a));
    if rest.dom() == Set::<u64>::empty() {
        assert forall|d: u64| #[trigger] held.contains_key(d) implies a <= d by {
            if d != a {
                assert(rest.dom().contains(d));
            }
        }
        assert(is_lowest(held, a));
    } else {
        lemma_lowest_exists(rest);
        let b = lowest(rest);
        let c = if a < b { a } else { b };
        assert(rest.contains_key(b));
        assert forall|d: u64| #[trigger] held.contains_key(d) implies c <= d by {
            if d != a {
                assert(rest.contains_key(d));
            }
        }
        assert(is_lowest(held, c));
    }
}

/// A set of counters that all lie in a window of `n` has at most `n` members.
pub proof fn lemma_window_len(s: Set<u64>, lo: u64, n: nat)
    requires
        s.finite(),
        forall|c: u64| #[trigger] s.contains(c) ==> lo <= c < lo + n,
    ensures
        s.len() <= n,
    decreases n,
{
    if n == 0 {
        assert(s =~= Set::<u64>::empty());
    } else {
        let top = (lo + n - 1) as u64;
        if lo + n - 1 <= u64::MAX && s.contains(top) {
            lemma_window_len(s.remove(top), lo, (n - 1) as nat);
        } else {
            lemma_window_len(s, lo, (n - 1) as nat);
        }
    }
}

/// A set with one member holds nothing else.
proof fn lemma_one_member(s: Set<u64>, a: u64, b: u64)
    requires
        s.finite(),
        s.len() == 1,
        s.contains(a),
        s.contains(b),
    ensures
        a == b,
{
    if a != b {
        assert(s.remove(a).contains(b));
        vstd::set_lib::lemma_set_empty_equivalency_len(s.remove(a));
    }
}

/// Held packets of one session. Holds counters that lie less than [`RING`] apart, each in the
/// slot of its remainder; the slots are allocated with the first held packet.
pub struct HeldRing {
    slots: Vec<Option<Held>>,
    count: usize,
    /// Least and greatest held counter (while `count > 0`).
    lo: u64,
    hi: u64,
    oldest: Option<u64>,
}

/// Slot `c % RING` holds the packet with counter `c`.
spec fn holds(slots: Seq<Option<Held>>, c: u64) -> bool {
    &&& slots.len() == RING
    &&& slots[(c as int) % 512] matches Some(h)
    &&& h.counter == c
}

/// The packets of the slots by counter.
spec fn by_counter(slots: Seq<Option<Held>>) -> Map<u64, Held> {
    Map::new(|c: u64| holds(slots, c), |c: u64| slots[(c as int) % 512]->0)
}

/// Every packet lies in the slot of its counter, and the counters lie in `lo..=hi`.
spec fn placed(slots: Seq<Option<Held>>, lo: u64, hi: u64) -> bool {
    forall|i: int|
        0 <= i < slots.len() && (#[trigger] slots[i]) is Some ==> {
            &&& (slots[i]->0.counter as int) % 512 == i
            &&& lo <= slots[i]->0.counter <= hi
        }
}

/// Emptying the slot of a held packet takes exactly that packet out.
proof fn lemma_take(slots: Seq<Option<Held>>, lo: u64, hi: u64, c: u64)
    requires
        holds(slots, c),
        placed(slots, lo, hi),
        hi - lo < RING,
        by_counter(slots).dom().finite(),
    ensures
        ({
            let rest = slots.update((c as int) % 512, None);
            &&& by_counter(rest) == by_counter(slots).remove(c)
            &&& placed(rest, lo, hi)
            &&& !holds(rest, c)
            &&& by_counter(rest).dom().finite()
            &&& by_counter(rest).dom().len() == by_counter(slots).dom().len() - 1
            &&& by_counter(rest).dom().len() == 0 ==> forall|k: int|
                0 <= k < rest.len() ==> (#[trigger] rest[k]) is None
            &&& by_counter(rest).dom().len() == 0 ==> by_counter(rest).dom() == Set::<u64>::empty()
            &&& by_counter(rest).dom().len() > 0 ==> by_counter(rest).dom() != Set::<u64>::empty()
            &&& by_counter(rest).dom().len() > 0 ==> exists|d: u64| holds(rest, d)
        }),
{
    let rest = slots.update((c as int) % 512, None);
    let m = by_counter(rest);
    assert(m =~= by_counter(slots).remove(c));
    assert(by_counter(slots).dom().contains(c));
    assert(m.dom() =~= by_counter(slots).dom().remove(c));
    vstd::set_lib::lemma_set_empty_equivalency_len(m.dom());
    if m.dom().len() == 0 {
        assert(m.dom() =~= Set::<u64>::empty());
        assert forall|k: int| 0 <= k < rest.len() implies (#[trigger] rest[k]) is None by {
            if rest[k] is Some {
                assert(m.dom().contains(rest[k]->0.counter));
            }
        }
    } else {
        let d = choose|d: u64| m.dom().contains(d);
        assert(holds(rest, d));
    }
}

/// The least held counter above `lo`.
fn next_held(slots: &Vec<Option<Held>>, lo: u64, hi: u64) -> (c: u64)
    requires
        slots@.len() == RING,
        placed(slots@, lo, hi),
        lo <= hi,
        hi - lo < RING,
        !holds(slots@, lo),
        exists|d: u64| holds(slots@, d),
    ensures
        lo < c <= hi,
        holds(slots@, c),
        placed(slots@, c, hi),
{
    let ghost d = choose|d: u64| holds(slots@, d);
    let mut c: u64 = lo;
    while slots[HeldRing::index(c)].is_none()
        invariant
            slots@.len() == RING,
            placed(slots@, lo, hi),
            hi - lo < RING,
            lo <= c <= d <= hi,
            holds(slots@, d),
            forall|e: u64| lo <= e < c ==> !holds(slots@, e),
        decreases d - c,
    {
        c += 1;
    }
    assert forall|i: int| 0 <= i < slots@.len() && (#[trigger] slots@[i]) is Some implies c
        <= slots@[i]->0.counter by {
        assert(holds(slots@, slots@[i]->0.counter));
    }
    c
}

/// The greatest held counter below `hi`.
fn previous_held(slots: &Vec<Option<Held>>, lo: u64, hi: u64) -> (c: u64)
    requires
        slots@.len() == RING,
        placed(slots@, lo, hi),
        lo <= hi,
        hi - lo < RING,
        !holds(slots@, hi),
        exists|d: u64| holds(slots@, d),
    ensures
        lo <= c < hi,
        holds(slots@, c),
        placed(slots@, lo, c),
{
    let ghost d = choose|d: u64| holds(slots@, d);
    let mut c: u64 = hi;
    while slots[HeldRing::index(c)].is_none()
        invariant
            slots@.len() == RING,
            placed(slots@, lo, hi),
            hi - lo < RING,
            lo <= d <= c <= hi,
            holds(slots@, d),
            forall|e: u64| c < e <= hi ==> !holds(slots@, e),
        decreases c - d,
    {
        c -= 1;
    }
    assert forall|i: int| 0 <= i < slots@.len() && (#[trigger] slots@[i]) is Some implies slots@[i]->0.counter
        <= c by {
        assert(holds(slots@, slots@[i]->0.counter));
    }
    c
}

/// The earliest arrival in the slots.
fn earliest_arrival(slots: &Vec<Option<Held>>, lo: u64, hi: u64) -> (t: u64)
    requires
        slots@.len() == RING,
        placed(slots@, lo, hi),
        exists|d: u64| holds(slots@, d),
    ensures
        is_earliest(by_counter(slots@), t),
        t == earliest(by_counter(slots@)),
{
    let ghost d = choose|d: u64| holds(slots@, d);
    let mut best: Option<u64> = None;
    let mut i: usize = 0;
    while i < RING
        invariant
            i <= RING == slots@.len(),
            best matches Some(t) ==> exists|k: int|
                0 <= k < i && (#[trigger] slots@[k]) is Some && slots@[k]->0.arrived == t,
            forall|k: int| 0 <= k < i && (#[trigger] slots@[k]) is Some ==> {
                &&& best is Some
                &&& best->0 <= slots@[k]->0.arrived
            },
        decreases RING - i,
    {
        if let Some(h) = &slots[i] {
            best = match best {
                Some(t) => Some(if t <= h.arrived { t } else { h.arrived }),
                None => Some(h.arrived),
            };
        }
        i += 1;
    }
    let t: u64 = match best {
        Some(t) => t,
        None => 0,
    };
    proof {
        let m = by_counter(slots@);
        assert(slots@[(d as int) % 512] is Some);
        let k = choose|k: int| 0 <= k < slots@.len() && (#[trigger] slots@[k]) is Some && slots@[k]->0.arrived == t;
        assert(m.contains_key(slots@[k]->0.counter));
        assert(is_earliest(m, t));
        let e = earliest(m);
        assert(is_earliest(m, e));
    }
    t
}

impl HeldRing {
    spec fn holds(&self, c: u64) -> bool {
        holds(self.slots@, c)
    }

    /// The held packets by counter.
    pub closed spec fn held(&self) -> Map<u64, Held> {
        by_counter(self.slots@)
    }

    /// The moment the wait for a missing packet is counted from.
    pub closed spec fn oldest(&self) -> Option<u64> {
        self.oldest
    }

    /// What the ring holds, and the moment the wait is counted from.
    pub open spec fn model(&self) -> RingModel {
        RingModel { held: self.held(), oldest: self.oldest() }
    }

    pub closed spec fn wf(&self) -> bool {
        &&& self.slots@.len() == 0 || self.slots@.len() == RING
        &&& self.held().dom().finite()
        &&& self.count == self.held().dom().len()
        &&& self.count > 0 ==> self.holds(self.lo) && self.holds(self.hi) && self.lo <= self.hi
            && self.hi - self.lo < RING
        &&& placed(self.slots@, self.lo, self.hi)
        &&& forall|i: int|
            0 <= i < self.slots@.len() && (#[trigger] self.slots@[i]) is Some ==> {
                &&& self.oldest is Some
                &&& self.oldest->0 <= self.slots@[i]->0.arrived
            }
        &&& self.oldest is Some <==> self.count > 0
    }

    pub fn new() -> (ring: Self)
        ensures
            ring.wf(),
            ring.model() == RingModel::empty(),
    {
        let ring = Self { slots: Vec::new(), count: 0, lo: 0, hi: 0, oldest: None };
        assert(ring.held() =~= Map::<u64, Held>::empty());
        ring
    }

    /// What the ring's invariant says of the held packets.
    pub proof fn lemma_held(&self)
        requires
            self.wf(),
        ensures
            self.held().dom().finite(),
            forall|c: u64| #[trigger] self.held().contains_key(c) ==> {
                &&& self.held()[c].counter == c
                &&& self.oldest() is Some
                &&& self.oldest()->0 <= self.held()[c].arrived
            },
            self.oldest() is Some <==> self.held().dom() != Set::<u64>::empty(),
    {
        if self.count > 0 {
            assert(self.held().contains_key(self.lo));
        } else {
            assert forall|c: u64| !self.held().dom().contains(c) by {
                if self.held().dom().contains(c) {
                    assert(self.held().dom().len() > 0) by {
                        vstd::set_lib::lemma_set_empty_equivalency_len(self.held().dom());
                    }
                }
            }
            assert(self.held().dom() =~= Set::<u64>::empty());
        }
    }

    /// How many packets are held.
    pub fn len(&self) -> (len: usize)
        requires
            self.wf(),
        ensures
            len == self.held().dom().len(),
    {
        self.count
    }

    /// The moment the wait for a missing packet is counted from.
    pub fn oldest_arrival(&self) -> (t: Option<u64>)
        ensures
            t == self.oldest(),
    {
        self.oldest
    }

    /// The least held counter.
    pub fn first(&self) -> (c: Option<u64>)
        requires
            self.wf(),
        ensures
            c is None <==> self.held().dom() == Set::<u64>::empty(),
            c matches Some(c) ==> is_lowest(self.held(), c) && c == lowest(self.held()),
    {
        proof {
            self.lemma_held();
            if self.count > 0 {
                assert(is_lowest(self.held(), self.lo));
                let l = lowest(self.held());
                assert(is_lowest(self.held(), l));
                assert(self.held().contains_key(l) && self.held().contains_key(self.lo));
            }
        }
        if self.count > 0 {
            Some(self.lo)
        } else {
            None
        }
    }

    fn index(counter: u64) -> (i: usize)
        ensures
            i == (counter as int) % 512,
            i < RING,
    {
        (counter % 512) as usize
    }

    /// Holds a packet back; one with the same counter is replaced.
    #[verifier::rlimit(40)]
    pub fn insert(&mut self, item: Held)
        requires
            old(self).wf(),
            forall|c: u64| #[trigger] old(self).held().contains_key(c) ==> -512 < c - item.counter < 512,
        ensures
            final(self).wf(),
            final(self).model() == old(self).model().inserted(item),
    {
        let ghost before = self.held();
        proof {
            self.lemma_held();
        }
        if self.slots.len() == 0 {
            let mut i: usize = 0;
            while i < RING
                invariant
                    i == self.slots@.len(),
                    i <= RING,
                    self.count == old(self).count,
                    self.oldest == old(self).oldest,
                    self.lo == old(self).lo,
                    self.hi == old(self).hi,
                    forall|k: int| 0 <= k < i ==> self.slots@[k] is None,
                decreases RING - i,
            {
                self.slots.push(None);
                i += 1;
            }
            assert(self.held() =~= before);
        }
        let ghost mid = *self;
        let counter: u64 = item.counter;
        let arrived: u64 = item.arrived;
        let i: usize = Self::index(counter);
        proof {
            if mid.slots@[i as int] is Some {
                let h = mid.slots@[i as int]->0;
                assert(mid.holds(h.counter));
                assert(before.contains_key(h.counter));
            }
            if mid.count > 0 {
                assert(before.contains_key(mid.lo));
                assert(before.contains_key(mid.hi));
            }
            lemma_window_len(before.dom(), mid.lo, RING as nat);
        }
        if self.slots[i].is_none() {
            assert(!before.contains_key(counter));
            self.count += 1;
        } else {
            assert(before.contains_key(counter));
        }
        self.slots[i] = Some(item);
        if self.count == 1 {
            self.lo = counter;
            self.hi = counter;
        } else {
            if counter < self.lo {
                self.lo = counter;
            }
            if counter > self.hi {
                self.hi = counter;
            }
        }
        self.oldest = match self.oldest {
            Some(o) => Some(if o <= arrived { o } else { arrived }),
            None => Some(arrived),
        };
        assert(self.held() =~= before.insert(counter, item));
        assert forall|k: int| 0 <= k < self.slots@.len() && (#[trigger] self.slots@[k]) is Some implies
            self.lo <= self.slots@[k]->0.counter <= self.hi by {
            let c = self.slots@[k]->0.counter;
            assert(self.holds(c));
            assert(self.held().dom().contains(c) && self.held().dom().contains(counter));
            if self.count == 1 {
                lemma_one_member(self.held().dom(), c, counter);
            }
        }
    }

    /// Takes a held packet out.
    #[verifier::rlimit(40)]
    pub fn remove(&mut self, counter: u64) -> (taken: Option<Held>)
        requires
            old(self).wf(),
        ensures
            final(self).wf(),
            taken is Some <==> old(self).held().contains_key(counter),
            taken matches Some(item) ==> item == old(self).held()[counter],
            final(self).model() == old(self).model().removed(counter),
    {
        let ghost slots = self.slots@;
        proof {
            self.lemma_held();
            if by_counter(slots).contains_key(counter) {
                assert(self.holds(counter));
                assert(self.count > 0);
            }
        }
        if self.count == 0 || counter < self.lo || counter > self.hi {
            return None;
        }
        let i: usize = Self::index(counter);
        let item = match self.slots[i].take() {
            Some(item) => item,
            None => {
                assert(self.slots@ =~= slots);
                return None;
            },
        };
        proof {
            assert(self.slots@ =~= slots.update(i as int, None));
            assert(holds(slots, counter));
            lemma_take(slots, old(self).lo, old(self).hi, counter);
        }
        self.count -= 1;
        if self.count == 0 {
            self.oldest = None;
            return Some(item);
        }
        if counter == self.lo {
            let lo: u64 = next_held(&self.slots, counter, self.hi);
            self.lo = lo;
        }
        if counter == self.hi {
            let hi: u64 = previous_held(&self.slots, self.lo, counter);
            self.hi = hi;
        }
        let stale = match self.oldest {
            Some(o) => o == item.arrived,
            None => false,
        };
        if stale {
            let t: u64 = earliest_arrival(&self.slots, self.lo, self.hi);
            self.oldest = Some(t);
            assert forall|k: int| 0 <= k < self.slots@.len() && (#[trigger] self.slots@[k]) is Some implies t
                <= self.slots@[k]->0.arrived by {
                assert(by_counter(self.slots@).contains_key(self.slots@[k]->0.counter));
            }
        }
        Some(item)
    }
}

/// A ring hands back what was put in: a packet that is put in under its counter is there until it
/// is taken out, others stay, and the first is the one with the lowest counter.
pub proof fn law_a_ring_hands_back_what_was_put_in(item: Held, counter: u64, other: u64, empty: HeldRing)
    requires
        call_ensures(HeldRing::new, (), empty),
    ensures
        forall|c: u64| !(#[trigger] empty.held().contains_key(c)),
        empty.oldest() is None,
        forall|r: &mut HeldRing| #[trigger]
            call_ensures(HeldRing::insert, (r, item), ()) ==> {
                &&& final(r).held().contains_key(item.counter) && final(r).held()[item.counter] == item
                &&& other != item.counter ==> (final(r).held().contains_key(other) <==> (
                *r).held().contains_key(other))
                &&& other != item.counter && (*r).held().contains_key(other) ==> final(r).held()[other]
                    == (*r).held()[other]
                &&& final(r).oldest() is Some && final(r).oldest()->0 <= item.arrived
            },
        forall|r: &mut HeldRing, taken: Option<Held>| #[trigger]
            call_ensures(HeldRing::remove, (r, counter), taken) ==> {
                &&& taken is Some <==> (*r).held().contains_key(counter)
                &&& taken matches Some(x) ==> x == (*r).held()[counter]
                &&& !final(r).held().contains_key(counter)
                &&& other != counter ==> (final(r).held().contains_key(other) <==> (
                *r).held().contains_key(other))
                &&& other != counter && (*r).held().contains_key(other) ==> final(r).held()[other] == (
                *r).held()[other]
                &&& taken is None ==> final(r).oldest() == (*r).oldest()
            },
        forall|r: &HeldRing, first: Option<u64>| #[trigger]
            call_ensures(HeldRing::first, (r,), first) ==> {
                &&& r.held().contains_key(other) ==> first is Some && first->0 <= other
                &&& first matches Some(c) ==> r.held().contains_key(c)
            },
{
    assert(empty.model() == RingModel::empty());
    assert forall|r: &HeldRing, first: Option<u64>| #[trigger] call_ensures(HeldRing::first, (r,), first) implies {
        &&& r.held().contains_key(other) ==> first is Some && first->0 <= other
        &&& first matches Some(c) ==> r.held().contains_key(c)
    } by {
        if r.held().contains_key(other) {
            assert(r.held().dom().contains(other));
        }
    }
}

} // verus!
