//! The state of the connection, put together from the phases of the slots.

use crate::text::{decimal, push_decimal};
use vstd::prelude::*;

verus! {

/// The phase of one slot.
#[derive(Clone, Copy, Debug, PartialEq, Eq, Structural)]
pub enum SlotPhase {
    /// Finding out the addresses and announcing them.
    Starting,
    /// Announced; the record of the peer is awaited.
    Rendezvous,
    /// Punching.
    Punching,
    /// The hole is open.
    Connected,
}

/// The state of the connection to the peer.
#[derive(Clone, Copy, Debug, PartialEq, Eq, Structural)]
pub enum ConnState {
    /// No hole is open or being punched: addresses are exchanged.
    Rendezvous,
    /// No hole is open, but one is being punched.
    Punching,
    /// So many holes are open.
    Connected(usize),
}

/// A state as text.
pub open spec fn state_text(state: ConnState) -> Seq<char> {
    match state {
        ConnState::Rendezvous => "rendezvous"@,
        ConnState::Punching => "punching"@,
        ConnState::Connected(n) => "connected("@ + decimal(n as nat) + ")"@,
    }
}

impl ConnState {
    /// The state as text.
    pub fn text(&self) -> (text: String)
        ensures
            text@ == state_text(*self),
    {
        match self {
            ConnState::Rendezvous => "rendezvous".to_owned(),
            ConnState::Punching => "punching".to_owned(),
            ConnState::Connected(n) => {
                let mut text: String = "connected(".to_owned();
                push_decimal(&mut text, *n as u64);
                text.append(")");
                assert(text@ =~= state_text(*self));
                text
            },
        }
    }
}

/// How many slots are in a phase.
pub open spec fn in_phase(phases: Seq<SlotPhase>, phase: SlotPhase) -> nat
    decreases phases.len(),
{
    if phases.len() == 0 {
        0
    } else {
        in_phase(phases.drop_last(), phase) + if phases.last() == phase {
            1nat
        } else {
            0nat
        }
    }
}

/// The state that the phases add up to.
pub open spec fn state_of(phases: Seq<SlotPhase>) -> ConnState {
    if in_phase(phases, SlotPhase::Connected) > 0 {
        ConnState::Connected(in_phase(phases, SlotPhase::Connected) as usize)
    } else if in_phase(phases, SlotPhase::Punching) > 0 {
        ConnState::Punching
    } else {
        ConnState::Rendezvous
    }
}

/// Puts the state together from the phases.
pub fn aggregate(phases: &[SlotPhase]) -> (state: ConnState)
    ensures
        state == state_of(phases@),
{
    let mut connected: usize = 0;
    let mut punching = false;
    let mut i: usize = 0;
    assert(phases@.take(0) =~= Seq::<SlotPhase>::empty());
    while i < phases.len()
        invariant
            i <= phases@.len(),
            connected <= i,
            connected == in_phase(phases@.take(i as int), SlotPhase::Connected),
            punching == (in_phase(phases@.take(i as int), SlotPhase::Punching) > 0),
        decreases phases@.len() - i,
    {
        proof {
            assert(phases@.take(i + 1).drop_last() =~= phases@.take(i as int));
            assert(phases@.take(i + 1).last() == phases@[i as int]);
        }
        if phases[i] == SlotPhase::Connected {
            connected += 1;
        }
        if phases[i] == SlotPhase::Punching {
            punching = true;
        }
        i += 1;
    }
    assert(phases@.take(phases@.len() as int) =~= phases@);
    if connected > 0 {
        ConnState::Connected(connected)
    } else if punching {
        ConnState::Punching
    } else {
        ConnState::Rendezvous
    }
}

/// A change of the state that has to be told.
#[derive(Clone, Copy, Debug, PartialEq, Eq)]
pub struct StateChange {
    /// The state that was told before, if any was.
    pub before: Option<ConnState>,
    pub now: ConnState,
}

/// The phases of all slots and the state that was told last.
pub struct StateTracker {
    phases: Vec<SlotPhase>,
    last: Option<ConnState>,
}

impl StateTracker {
    /// The phases of the slots.
    pub closed spec fn phases(&self) -> Seq<SlotPhase> {
        self.phases@
    }

    /// The state that was told last.
    pub closed spec fn last(&self) -> Option<ConnState> {
        self.last
    }

    /// Slots that have just started.
    pub fn new(slots: usize) -> (state: Self)
        ensures
            state.phases() == Seq::new(slots as nat, |i: int| SlotPhase::Starting),
            state.last() is None,
    {
        let mut phases: Vec<SlotPhase> = Vec::new();
        let mut i: usize = 0;
        while i < slots
            invariant
                i <= slots,
                phases@ == Seq::new(i as nat, |i: int| SlotPhase::Starting),
            decreases slots - i,
        {
            phases.push(SlotPhase::Starting);
            i += 1;
            assert(phases@ =~= Seq::new(i as nat, |i: int| SlotPhase::Starting));
        }
        StateTracker { phases, last: None }
    }

    /// A slot has entered a phase. The state that the phases add up to is told when it differs
    /// from the one that was told last.
    pub fn set(&mut self, slot: u8, phase: SlotPhase) -> (change: Option<StateChange>)
        requires
            slot < old(self).phases().len(),
        ensures
            final(self).phases() == old(self).phases().update(slot as int, phase),
            final(self).last() == Some(state_of(final(self).phases())),
            change == if old(self).last() == final(self).last() {
                None
            } else {
                Some(
                    StateChange {
                        before: old(self).last(),
                        now: state_of(final(self).phases()),
                    },
                )
            },
    {
        self.phases[slot as usize] = phase;
        let now = aggregate(self.phases.as_slice());
        let before = self.last;
        let same = match before {
            Some(told) => told == now,
            None => false,
        };
        if same {
            return None;
        }
        self.last = Some(now);
        Some(StateChange { before, now })
    }
}

proof fn lemma_in_phase(phases: Seq<SlotPhase>, phase: SlotPhase)
    ensures
        in_phase(phases, phase) <= phases.len(),
        in_phase(phases, phase) > 0 <==> phases.contains(phase),
    decreases phases.len(),
{
    if phases.len() > 0 {
        let rest = phases.drop_last();
        lemma_in_phase(rest, phase);
        if rest.contains(phase) {
            let i = choose|i: int| 0 <= i < rest.len() && rest[i] == phase;
            assert(phases[i] == phase);
        }
        if phases.contains(phase) && phases.last() != phase {
            let i = choose|i: int| 0 <= i < phases.len() && phases[i] == phase;
            assert(rest[i] == phase);
        }
        if phases.last() == phase {
            assert(phases[phases.len() - 1] == phase);
        }
    }
}

/// The connection is up exactly when a hole is open, and is being punched exactly when none is
/// open and one is being punched.
pub proof fn law_state_follows_the_best_slot(phases: Seq<SlotPhase>)
    ensures
        state_of(phases) is Connected <==> phases.contains(SlotPhase::Connected),
        state_of(phases) is Punching <==> !phases.contains(SlotPhase::Connected)
            && phases.contains(SlotPhase::Punching),
        state_of(phases) is Rendezvous <==> !phases.contains(SlotPhase::Connected)
            && !phases.contains(SlotPhase::Punching),
{
    lemma_in_phase(phases, SlotPhase::Connected);
    lemma_in_phase(phases, SlotPhase::Punching);
}

proof fn lemma_counted(phases: Seq<SlotPhase>, phase: SlotPhase)
    ensures
        in_phase(phases, phase) == phases.to_multiset().count(phase),
    decreases phases.len(),
{
    phases.to_multiset_ensures();
    if phases.len() > 0 {
        lemma_counted(phases.drop_last(), phase);
        phases.drop_last().to_multiset_ensures();
        assert(phases.drop_last().push(phases.last()) =~= phases);
    }
}

/// The state of the connection tells how many holes are open; with none, whether one is being
/// punched; else addresses are exchanged.
pub proof fn law_state_counts_the_open_holes(phases: &[SlotPhase], state: ConnState)
    requires
        call_ensures(aggregate, (phases,), state),
        phases@.len() <= usize::MAX,
    ensures
        ({
            let open = phases@.to_multiset().count(SlotPhase::Connected);
            &&& open > 0 ==> (state matches ConnState::Connected(n) && n == open)
            &&& open == 0 && phases@.contains(SlotPhase::Punching) ==> state is Punching
            &&& open == 0 && !phases@.contains(SlotPhase::Punching) ==> state is Rendezvous
        }),
{
    phases@.to_multiset_ensures();
    lemma_counted(phases@, SlotPhase::Connected);
    lemma_counted(phases@, SlotPhase::Punching);
    lemma_bounded(phases@, SlotPhase::Connected);
}

proof fn lemma_bounded(phases: Seq<SlotPhase>, phase: SlotPhase)
    ensures
        in_phase(phases, phase) <= phases.len(),
    decreases phases.len(),
{
    if phases.len() > 0 {
        lemma_bounded(phases.drop_last(), phase);
    }
}

/// A change of the state is told once, with what was told before; as long as the state stays the
/// same, nothing is told, whatever the slots do.
pub proof fn law_only_changes_are_told(slot: u8, phase: SlotPhase)
    ensures
        forall|t: &mut StateTracker, change: Option<StateChange>| #[trigger]
            call_ensures(StateTracker::set, (t, slot, phase), change) && slot < (*t).phases().len()
                ==> {
                &&& final(t).phases().len() == (*t).phases().len()
                &&& final(t).phases()[slot as int] == phase
                &&& forall|i: int|
                    0 <= i < (*t).phases().len() && i != slot ==> final(t).phases()[i] == (
                    *t).phases()[i]
                &&& change is None <==> (*t).last() == final(t).last()
                &&& change matches Some(c) ==> c.before == (*t).last() && Some(c.now)
                    == final(t).last()
            },
{
}

/// The states as text: `rendezvous`, `punching`, and `connected` with the number of open holes in
/// brackets. A tracker starts with slots that are all starting, and has told nothing.
pub proof fn law_states_have_names(
    holes: usize,
    meeting: String,
    punching: String,
    connected: String,
    slots: usize,
    tracker: StateTracker,
    i: int,
)
    requires
        call_ensures(ConnState::text, (&ConnState::Rendezvous,), meeting),
        call_ensures(ConnState::text, (&ConnState::Punching,), punching),
        call_ensures(ConnState::text, (&ConnState::Connected(holes),), connected),
        call_ensures(StateTracker::new, (slots,), tracker),
    ensures
        meeting@ == "rendezvous"@,
        punching@ == "punching"@,
        connected@ == "connected("@ + decimal(holes as nat) + ")"@,
        tracker.phases().len() == slots,
        0 <= i < slots ==> tracker.phases()[i] is Starting,
        tracker.last() is None,
{
}

} // verus!
