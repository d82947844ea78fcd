//! What the life of a slot looks like from outside, over any number of events: the phases that are
//! told, and the holes that are listed among the live ones.

use super::registry::RegistryModel;
use super::slot::{SlotAction, SlotEvent, SlotWorker, Stage};
use super::state::SlotPhase;
use crate::guid::Guid;
use crate::link_id::link_id;
use vstd::prelude::*;

verus! {

/// What is seen of a slot from outside.
pub struct Outside {
    /// The phase that was told last.
    pub told: Option<SlotPhase>,
    /// The hole that the slot has among the live ones: our session and that of the peer.
    pub listed: Option<(Guid, Guid)>,
    /// The session of the peer to which the last hole was listed.
    pub last_peer: Option<Guid>,
}

impl Outside {
    /// Nothing was told or listed yet.
    pub open spec fn initial() -> Self {
        Outside { told: None, listed: None, last_peer: None }
    }

    /// After an action.
    pub open spec fn seeing(self, action: SlotAction) -> Self {
        match action {
            SlotAction::Tell(phase) => Outside { told: Some(phase), ..self },
            SlotAction::List { session, peer } => Outside {
                listed: Some((session, peer)),
                last_peer: Some(peer),
                ..self
            },
            SlotAction::Unlist { .. } => Outside { listed: None, ..self },
            _ => self,
        }
    }

    /// After a row of actions.
    pub open spec fn seeing_all(self, actions: Seq<SlotAction>) -> Self
        decreases actions.len(),
    {
        if actions.len() == 0 {
            self
        } else {
            self.seeing_all(actions.drop_last()).seeing(actions.last())
        }
    }

    /// The action is in order.
    /// - Each phase comes after the one before it: waiting for the peer after starting, punching
    ///   after waiting, connected after punching; starting comes first and after any but waiting.
    /// - A hole is listed after punching was told and before connected is. It is one to another
    ///   session of the peer than the last one.
    /// - It is taken out after connected was told and before starting is.
    /// - Nothing else is done while a hole is listed, but while connected is told.
    pub open spec fn allows(self, action: SlotAction) -> bool {
        match action {
            SlotAction::Tell(SlotPhase::Starting) => self.listed is None && self.told != Some(
                SlotPhase::Rendezvous,
            ),
            SlotAction::Tell(SlotPhase::Rendezvous) => self.listed is None && self.told == Some(
                SlotPhase::Starting,
            ),
            SlotAction::Tell(SlotPhase::Punching) => self.listed is None && self.told == Some(
                SlotPhase::Rendezvous,
            ),
            SlotAction::Tell(SlotPhase::Connected) => self.listed is Some && self.told == Some(
                SlotPhase::Punching,
            ),
            SlotAction::List { session, peer } => self.listed is None && self.told == Some(
                SlotPhase::Punching,
            ) && self.last_peer != Some(peer),
            SlotAction::Unlist { session, peer } => self.listed == Some((session, peer))
                && self.told == Some(SlotPhase::Connected),
            _ => self.listed is Some ==> self.told == Some(SlotPhase::Connected),
        }
    }

    /// The slot at its stage looks like this from outside, between two events.
    spec fn fits(self, worker: SlotWorker) -> bool {
        &&& self.last_peer == worker.last_linked
        &&& match worker.stage {
            Stage::Idle => self.listed is None && self.told != Some(SlotPhase::Rendezvous),
            Stage::Binding { .. } => self.listed is None && self.told == Some(SlotPhase::Starting),
            Stage::Observing { .. } => self.listed is None && self.told == Some(
                SlotPhase::Starting,
            ),
            Stage::Announcing { .. } => self.listed is None && self.told == Some(
                SlotPhase::Starting,
            ),
            Stage::Waiting { .. } => self.listed is None && self.told == Some(
                SlotPhase::Rendezvous,
            ),
            Stage::Stopped => self.listed is None && self.told == Some(SlotPhase::Rendezvous),
            Stage::Punching { session, peer } => self.listed is None && self.told == Some(
                SlotPhase::Punching,
            ) && worker.last_linked != Some(peer),
            Stage::Linked { session, peer } => self.listed == Some((session, peer)) && self.told
                == Some(SlotPhase::Connected),
        }
    }
}

/// A slot from its beginning: `answers[i]` is what the event `events[i]` calls for.
pub open spec fn is_life(
    worker: SlotWorker,
    events: Seq<SlotEvent>,
    answers: Seq<Seq<SlotAction>>,
) -> bool {
    &&& worker.stage is Idle
    &&& worker.last_linked is None
    &&& answers.len() == events.len()
    &&& forall|i: int|
        0 <= i < events.len() ==> worker.after(events.take(i)).asks(
            #[trigger] events[i],
            answers[i],
        )
}

/// All actions, one after the other.
pub open spec fn all_actions(answers: Seq<Seq<SlotAction>>) -> Seq<SlotAction>
    decreases answers.len(),
{
    if answers.len() == 0 {
        Seq::empty()
    } else {
        all_actions(answers.drop_last()) + answers.last()
    }
}

/// Every action of the row is in order when it comes.
pub open spec fn allows_all(start: Outside, actions: Seq<SlotAction>) -> bool {
    forall|n: int|
        0 <= n < actions.len() ==> start.seeing_all(actions.take(n)).allows(#[trigger] actions[n])
}

proof fn lemma_seeing_more(start: Outside, a: Seq<SlotAction>, b: Seq<SlotAction>)
    ensures
        start.seeing_all(a + b) == start.seeing_all(a).seeing_all(b),
    decreases b.len(),
{
    if b.len() == 0 {
        assert(a + b =~= a);
    } else {
        assert((a + b).drop_last() =~= a + b.drop_last());
        assert((a + b).last() == b.last());
        lemma_seeing_more(start, a, b.drop_last());
    }
}

proof fn lemma_allows_more(start: Outside, a: Seq<SlotAction>, b: Seq<SlotAction>)
    requires
        allows_all(start, a),
        allows_all(start.seeing_all(a), b),
    ensures
        allows_all(start, a + b),
{
    let all = a + b;
    assert forall|n: int| 0 <= n < all.len() implies start.seeing_all(all.take(n)).allows(
        #[trigger] all[n],
    ) by {
        if n < a.len() {
            assert(all.take(n) =~= a.take(n));
            assert(all[n] == a[n]);
        } else {
            let k = n - a.len();
            assert(all.take(n) =~= a + b.take(k));
            lemma_seeing_more(start, a, b.take(k));
            assert(all[n] == b[k]);
        }
    }
}

/// What one event calls for is in order, and leaves the slot as it looks from outside.
proof fn lemma_answer(o: Outside, worker: SlotWorker, event: SlotEvent, actions: Seq<SlotAction>)
    requires
        o.fits(worker),
        worker.asks(event, actions),
    ensures
        allows_all(o, actions),
        o.seeing_all(actions).fits(worker.stepped(event)),
{
    reveal_with_fuel(Outside::seeing_all, 4);
    assert(actions.len() <= 3);
    if actions.len() > 0 {
        assert(actions.take(0) =~= Seq::<SlotAction>::empty());
        let a = actions[0];
        assert(actions.take(1) =~= seq![a]);
        assert(seq![a].drop_last() =~= Seq::<SlotAction>::empty());
        assert(o.seeing_all(actions.take(1)) == o.seeing(a));
        if actions.len() == 1 {
            assert(actions =~= seq![a]);
        } else {
            let b = actions[1];
            assert(actions.take(2) =~= seq![a, b]);
            assert(seq![a, b].drop_last() =~= seq![a]);
            assert(o.seeing_all(actions.take(2)) == o.seeing(a).seeing(b));
            if actions.len() == 2 {
                assert(actions =~= seq![a, b]);
            } else {
                let c = actions[2];
                assert(actions =~= seq![a, b, c]);
                assert(seq![a, b, c].drop_last() =~= seq![a, b]);
                assert(o.seeing_all(actions) == o.seeing(a).seeing(b).seeing(c));
            }
        }
    }
}

proof fn lemma_shorter_life(
    worker: SlotWorker,
    events: Seq<SlotEvent>,
    answers: Seq<Seq<SlotAction>>,
    n: int,
)
    requires
        is_life(worker, events, answers),
        0 <= n <= events.len(),
    ensures
        is_life(worker, events.take(n), answers.take(n)),
{
    assert forall|i: int| 0 <= i < n implies worker.after(events.take(n).take(i)).asks(
        #[trigger] events.take(n)[i],
        answers.take(n)[i],
    ) by {
        assert(events.take(n).take(i) =~= events.take(i));
        assert(events.take(n)[i] == events[i]);
    }
}

proof fn lemma_life(worker: SlotWorker, events: Seq<SlotEvent>, answers: Seq<Seq<SlotAction>>)
    requires
        is_life(worker, events, answers),
    ensures
        allows_all(Outside::initial(), all_actions(answers)),
        Outside::initial().seeing_all(all_actions(answers)).fits(worker.after(events)),
    decreases events.len(),
{
    if events.len() > 0 {
        let last = events.len() - 1;
        lemma_shorter_life(worker, events, answers, last);
        assert(events.take(last) =~= events.drop_last());
        assert(answers.take(last) =~= answers.drop_last());
        lemma_life(worker, events.drop_last(), answers.drop_last());
        let before = all_actions(answers.drop_last());
        let o = Outside::initial().seeing_all(before);
        assert(worker.after(events.take(last)).asks(events[last], answers[last]));
        lemma_answer(o, worker.after(events.drop_last()), events.last(), answers.last());
        lemma_allows_more(Outside::initial(), before, answers.last());
        lemma_seeing_more(Outside::initial(), before, answers.last());
    }
}

/// Whatever happens to a slot, every action is in order: the phases are told one after the other,
/// a hole is listed just before connected is told and taken out before starting is told again, and
/// no two holes in a row are to the same session of the peer.
pub proof fn law_phases_and_holes_come_in_order(
    worker: SlotWorker,
    events: Seq<SlotEvent>,
    answers: Seq<Seq<SlotAction>>,
    n: int,
)
    requires
        is_life(worker, events, answers),
        0 <= n < all_actions(answers).len(),
    ensures
        Outside::initial().seeing_all(all_actions(answers).take(n)).allows(all_actions(answers)[n]),
{
    lemma_life(worker, events, answers);
}

/// While a hole of the slot is listed, connected is told, or is just about to be: it is the very
/// next action.
pub proof fn law_a_listed_slot_is_connected(
    worker: SlotWorker,
    events: Seq<SlotEvent>,
    answers: Seq<Seq<SlotAction>>,
    n: int,
)
    requires
        is_life(worker, events, answers),
        0 <= n <= all_actions(answers).len(),
    ensures
        ({
            let all = all_actions(answers);
            let o = Outside::initial().seeing_all(all.take(n));
            o.listed is Some ==> {
                ||| o.told == Some(SlotPhase::Connected)
                ||| n < all.len() && o.told == Some(SlotPhase::Punching) && all[n]
                    == SlotAction::Tell(SlotPhase::Connected)
            }
        }),
{
    lemma_life(worker, events, answers);
    let all = all_actions(answers);
    if n < all.len() {
        assert(Outside::initial().seeing_all(all.take(n)).allows(all[n]));
    } else {
        assert(all.take(n) =~= all);
    }
}

/// A change of the registry of live holes, or another action of the slot.
pub enum Change {
    /// An action of the slot.
    Own(SlotAction),
    /// A hole of another slot is listed.
    Insert { id: Seq<u8>, slot: u8 },
    /// A hole of another slot is taken out.
    Remove { id: Seq<u8> },
}

impl RegistryModel {
    /// After a change, where the slot in question is `slot`.
    pub open spec fn changed(self, slot: u8, change: Change) -> Self {
        match change {
            Change::Own(SlotAction::List { session, peer }) => self.inserted(
                link_id(session, peer),
                slot,
            ),
            Change::Own(SlotAction::Unlist { session, peer }) => self.removed(link_id(session, peer)),
            Change::Own(_) => self,
            Change::Insert { id, slot: other } => self.inserted(id, other),
            Change::Remove { id } => self.removed(id),
        }
    }

    /// After a row of changes.
    pub open spec fn changed_by(self, slot: u8, changes: Seq<Change>) -> Self
        decreases changes.len(),
    {
        if changes.len() == 0 {
            self
        } else {
            self.changed_by(slot, changes.drop_last()).changed(slot, changes.last())
        }
    }

    /// The identifier is that of a hole of the slot.
    pub open spec fn is_of(self, id: Seq<u8>, slot: u8) -> bool {
        self.index.contains_key(id) && self.index[id] == slot
    }

    /// The change leaves the slot alone, where it is not one of its own: it is of another slot,
    /// and of a hole with another identifier.
    pub open spec fn leaves_alone(self, slot: u8, change: Change) -> bool {
        match change {
            Change::Own(_) => true,
            Change::Insert { id, slot: other } => other != slot && !self.is_of(id, slot),
            Change::Remove { id } => !self.is_of(id, slot),
        }
    }

    /// The slot is listed as it looks from outside.
    spec fn shows(self, slot: u8, o: Outside) -> bool {
        &&& self.live.contains(slot) <==> o.listed is Some
        &&& forall|id: Seq<u8>| #[trigger]
            self.is_of(id, slot) <==> (o.listed matches Some((session, peer)) && id == link_id(
                session,
                peer,
            ))
    }
}

/// The actions of the slot among the changes.
pub open spec fn own(changes: Seq<Change>) -> Seq<SlotAction>
    decreases changes.len(),
{
    if changes.len() == 0 {
        Seq::empty()
    } else {
        match changes.last() {
            Change::Own(action) => own(changes.drop_last()).push(action),
            _ => own(changes.drop_last()),
        }
    }
}

/// The other slots leave the slot alone all the time.
pub open spec fn undisturbed(start: RegistryModel, slot: u8, changes: Seq<Change>) -> bool
    decreases changes.len(),
{
    changes.len() == 0 || undisturbed(start, slot, changes.drop_last()) && start.changed_by(
        slot,
        changes.drop_last(),
    ).leaves_alone(slot, changes.last())
}

proof fn lemma_registry_shows(
    start: RegistryModel,
    slot: u8,
    changes: Seq<Change>,
    all: Seq<SlotAction>,
)
    requires
        start.shows(slot, Outside::initial()),
        allows_all(Outside::initial(), all),
        own(changes).len() <= all.len(),
        own(changes) == all.take(own(changes).len() as int),
        undisturbed(start, slot, changes),
    ensures
        start.changed_by(slot, changes).shows(
            slot,
            Outside::initial().seeing_all(own(changes)),
        ),
    decreases changes.len(),
{
    if changes.len() > 0 {
        let before = changes.drop_last();
        let done = own(before);
        let reg = start.changed_by(slot, before);
        let after = start.changed_by(slot, changes);
        assert(done =~= all.take(done.len() as int)) by {
            assert forall|i: int| 0 <= i < done.len() implies done[i] == all[i] by {
                assert(own(changes)[i] == done[i]);
            }
        }
        lemma_registry_shows(start, slot, before, all);
        let o = Outside::initial().seeing_all(done);
        match changes.last() {
            Change::Own(action) => {
                let n = done.len() as int;
                assert(own(changes)[n] == action);
                assert(all[n] == action);
                assert(o.allows(action));
                assert(own(changes).drop_last() =~= done);
                let p = Outside::initial().seeing_all(own(changes));
                assert(p == o.seeing(action));
                match action {
                    SlotAction::List { session, peer } => {
                        let id = link_id(session, peer);
                        assert forall|x: Seq<u8>| #[trigger] after.is_of(x, slot) <==> x == id by {
                            assert(!reg.is_of(x, slot));
                        }
                    },
                    SlotAction::Unlist { session, peer } => {
                        let id = link_id(session, peer);
                        assert(reg.is_of(id, slot));
                        assert forall|x: Seq<u8>| !#[trigger] after.is_of(x, slot) by {
                            assert(reg.is_of(x, slot) <==> x == id);
                        }
                    },
                    _ => {
                        assert(after == reg);
                    },
                }
            },
            Change::Insert { id, slot: other } => {
                assert forall|x: Seq<u8>| #[trigger] after.is_of(x, slot) <==> reg.is_of(x, slot) by {}
            },
            Change::Remove { id } => {
                assert forall|x: Seq<u8>| #[trigger] after.is_of(x, slot) <==> reg.is_of(x, slot) by {}
            },
        }
    } else {
        assert(own(changes) =~= Seq::<SlotAction>::empty());
    }
}

/// The registry, which the other slots change as well, lists the slot from the moment its hole is
/// listed until it is taken out: only from just before connected is told until before starting is
/// told again. The other slots have other identifiers of holes.
pub proof fn law_registry_lists_the_slot_while_it_is_connected(
    worker: SlotWorker,
    events: Seq<SlotEvent>,
    answers: Seq<Seq<SlotAction>>,
    start: RegistryModel,
    changes: Seq<Change>,
)
    requires
        is_life(worker, events, answers),
        !start.live.contains(worker.slot),
        forall|id: Seq<u8>| !#[trigger] start.is_of(id, worker.slot),
        own(changes).len() <= all_actions(answers).len(),
        own(changes) == all_actions(answers).take(own(changes).len() as int),
        undisturbed(start, worker.slot, changes),
    ensures
        ({
            let n = own(changes).len() as int;
            let all = all_actions(answers);
            let o = Outside::initial().seeing_all(own(changes));
            let lists = start.changed_by(worker.slot, changes).live.contains(worker.slot);
            &&& lists <==> o.listed is Some
            &&& lists ==> {
                ||| o.told == Some(SlotPhase::Connected)
                ||| n < all.len() && o.told == Some(SlotPhase::Punching) && all[n]
                    == SlotAction::Tell(SlotPhase::Connected)
            }
            &&& n < all.len() && all[n] == SlotAction::Tell(SlotPhase::Connected) ==> lists
            &&& n < all.len() && all[n] == SlotAction::Tell(SlotPhase::Starting) ==> !lists
        }),
{
    lemma_life(worker, events, answers);
    lemma_registry_shows(start, worker.slot, changes, all_actions(answers));
    let n = own(changes).len() as int;
    law_a_listed_slot_is_connected(worker, events, answers, n);
    if n < all_actions(answers).len() {
        law_phases_and_holes_come_in_order(worker, events, answers, n);
    }
}

/// The event with which the attempt that goes on after `n` events started; -1, where none did.
pub open spec fn start_of(worker: SlotWorker, events: Seq<SlotEvent>, n: nat) -> int
    decreases n,
{
    if n == 0 {
        -1
    } else if worker.after(events.take(n - 1)).stage is Idle && events[n - 1] is Start {
        n - 1
    } else {
        start_of(worker, events, (n - 1) as nat)
    }
}

/// Our session at a stage.
pub open spec fn session_at(stage: Stage) -> Option<Guid> {
    match stage {
        Stage::Binding { session, .. } => Some(session),
        Stage::Observing { session, .. } => Some(session),
        Stage::Announcing { session, .. } => Some(session),
        Stage::Waiting { session, .. } => Some(session),
        Stage::Punching { session, .. } => Some(session),
        Stage::Linked { session, .. } => Some(session),
        Stage::Idle => None,
        Stage::Stopped => None,
    }
}

/// Our session in an action.
pub open spec fn session_of(action: SlotAction) -> Option<Guid> {
    match action {
        SlotAction::Announce { session, .. } => Some(session),
        SlotAction::Punch { identity, .. } => Some(identity.session_id),
        SlotAction::List { session, .. } => Some(session),
        SlotAction::Unlist { session, .. } => Some(session),
        _ => None,
    }
}

proof fn lemma_after(worker: SlotWorker, events: Seq<SlotEvent>, n: int)
    requires
        0 <= n < events.len(),
    ensures
        worker.after(events.take(n + 1)) == worker.after(events.take(n)).stepped(events[n]),
{
    assert(events.take(n + 1).drop_last() =~= events.take(n));
    assert(events.take(n + 1).last() == events[n]);
}

proof fn lemma_session(worker: SlotWorker, events: Seq<SlotEvent>, n: nat)
    requires
        worker.stage is Idle,
        n <= events.len(),
    ensures
        -1 <= start_of(worker, events, n) < n,
        session_at(worker.after(events.take(n as int)).stage) matches Some(session) ==> {
            let k = start_of(worker, events, n);
            k >= 0 && (events[k] matches SlotEvent::Start { session: s, .. } && s == session)
        },
    decreases n,
{
    if n == 0 {
        assert(events.take(0) =~= Seq::<SlotEvent>::empty());
    } else {
        lemma_session(worker, events, (n - 1) as nat);
        lemma_after(worker, events, n - 1);
    }
}

proof fn lemma_session_asked(
    worker: SlotWorker,
    event: SlotEvent,
    actions: Seq<SlotAction>,
    k: int,
)
    requires
        worker.asks(event, actions),
        0 <= k < actions.len(),
        session_of(actions[k]) is Some,
    ensures
        session_of(actions[k]) == session_at(worker.stage),
{
}

/// Every attempt uses the session that it started with: the one in each action is that of the
/// last start.
pub proof fn law_an_attempt_keeps_its_session(
    worker: SlotWorker,
    events: Seq<SlotEvent>,
    answers: Seq<Seq<SlotAction>>,
    i: int,
    k: int,
)
    requires
        is_life(worker, events, answers),
        0 <= i < events.len(),
        0 <= k < answers[i].len(),
    ensures
        session_of(answers[i][k]) matches Some(session) ==> {
            let n = start_of(worker, events, i as nat);
            0 <= n < i && (events[n] matches SlotEvent::Start { session: s, .. } && s == session)
        },
{
    lemma_session(worker, events, i as nat);
    let now = worker.after(events.take(i));
    assert(now.asks(events[i], answers[i]));
    if session_of(answers[i][k]) is Some {
        lemma_session_asked(now, events[i], answers[i], k);
    }
}

/// How far an attempt has come.
spec fn progress(stage: Stage) -> int {
    match stage {
        Stage::Binding { .. } => 1,
        Stage::Observing { .. } => 1,
        Stage::Announcing { .. } => 2,
        Stage::Waiting { .. } => 3,
        Stage::Punching { .. } => 4,
        Stage::Linked { .. } => 5,
        Stage::Idle => 6,
        Stage::Stopped => 6,
    }
}

proof fn lemma_progress(worker: SlotWorker, events: Seq<SlotEvent>, n: nat, m: nat)
    requires
        worker.stage is Idle,
        n <= m <= events.len(),
    ensures
        start_of(worker, events, n) <= start_of(worker, events, m),
        start_of(worker, events, n) == start_of(worker, events, m) ==> progress(
            worker.after(events.take(n as int)).stage,
        ) <= progress(worker.after(events.take(m as int)).stage),
    decreases m - n,
{
    if n < m {
        lemma_progress(worker, events, n, (m - 1) as nat);
        lemma_session(worker, events, n);
        lemma_after(worker, events, m - 1);
    }
}

proof fn lemma_progress_asked(worker: SlotWorker, event: SlotEvent, actions: Seq<SlotAction>)
    requires
        worker.asks(event, actions),
        actions.len() > 0,
    ensures
        actions[0] is Announce ==> progress(worker.stage) == 1 && progress(
            worker.stepped(event).stage,
        ) == 2,
        actions[0] is List ==> progress(worker.stage) == 4 && progress(worker.stepped(event).stage)
            == 5,
{
}

/// Every attempt has a start of its own: between two announcements, and between two holes, the
/// slot started anew. With a new session in every start no two attempts share one.
pub proof fn law_every_attempt_has_its_own_start(
    worker: SlotWorker,
    events: Seq<SlotEvent>,
    answers: Seq<Seq<SlotAction>>,
    i: int,
    j: int,
)
    requires
        is_life(worker, events, answers),
        0 <= i < j < events.len(),
        answers[i].len() > 0,
        answers[j].len() > 0,
        (answers[i][0] is Announce && answers[j][0] is Announce) || (answers[i][0] is List
            && answers[j][0] is List),
    ensures
        start_of(worker, events, i as nat) < start_of(worker, events, j as nat),
{
    let (one, other) = (worker.after(events.take(i)), worker.after(events.take(j)));
    assert(one.asks(events[i], answers[i]));
    assert(other.asks(events[j], answers[j]));
    lemma_progress_asked(one, events[i], answers[i]);
    lemma_progress_asked(other, events[j], answers[j]);
    lemma_after(worker, events, i);
    lemma_progress(worker, events, (i + 1) as nat, j as nat);
    assert(!(one.stage is Idle));
    assert(start_of(worker, events, (i + 1) as nat) == start_of(worker, events, i as nat));
}

} // verus!
