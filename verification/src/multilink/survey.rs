//! Asking the STUN servers how they see a socket.

use crate::endpoints::{add_endpoint, distinct, lemma_distinct};
use crate::net::Endpoint;
use crate::stun::{describe_nat, NatHint};
use vstd::prelude::*;

verus! {

/// How often a server that does not answer is asked.
pub const ATTEMPTS: usize = 2;

/// The progress of asking all servers, one after the other.
pub struct Survey {
    servers: Vec<Endpoint>,
    /// The server that is asked.
    at: usize,
    /// How often it did not answer.
    failed: usize,
    observed: Vec<(Endpoint, Endpoint)>,
}

/// What is known so far.
pub struct SurveyModel {
    /// The servers that have still to be asked, the current one first.
    pub left: Seq<Endpoint>,
    /// How often the current one did not answer.
    pub failed: nat,
    /// The servers that answered and the addresses that they saw.
    pub observed: Seq<(Endpoint, Endpoint)>,
}

impl View for Survey {
    type V = SurveyModel;

    closed spec fn view(&self) -> SurveyModel {
        SurveyModel {
            left: self.servers@.skip(self.at as int),
            failed: self.failed as nat,
            observed: self.observed@,
        }
    }
}

/// The progress after an answer, or after none came.
pub open spec fn asked(before: SurveyModel, seen: Option<Endpoint>) -> SurveyModel {
    match seen {
        Some(address) => SurveyModel {
            left: before.left.skip(1),
            failed: 0,
            observed: before.observed.push((before.left[0], address)),
        },
        None => if before.failed + 1 < ATTEMPTS {
            SurveyModel { failed: before.failed + 1, ..before }
        } else {
            SurveyModel { left: before.left.skip(1), failed: 0, ..before }
        },
    }
}

/// The addresses that were seen.
pub open spec fn seen_in(observed: Seq<(Endpoint, Endpoint)>) -> Seq<Endpoint> {
    observed.map_values(|pair: (Endpoint, Endpoint)| pair.1)
}

/// The addresses that were seen, without repetitions; nothing, where no server answered.
pub fn observed_endpoints(observed: &[(Endpoint, Endpoint)]) -> (endpoints: Option<Vec<Endpoint>>)
    ensures
        endpoints is None <==> observed@.len() == 0,
        endpoints matches Some(e) ==> e@ == distinct(seen_in(observed@)),
        endpoints matches Some(e) ==> e@.len() > 0 && e@[0] == observed@[0].1,
{
    if observed.len() == 0 {
        return None;
    }
    let ghost seen = seen_in(observed@);
    let mut endpoints: Vec<Endpoint> = Vec::new();
    let mut i: usize = 0;
    assert(seen.take(0) =~= Seq::<Endpoint>::empty());
    while i < observed.len()
        invariant
            i <= observed@.len(),
            seen == seen_in(observed@),
            endpoints@ == distinct(seen.take(i as int)),
        decreases observed@.len() - i,
    {
        proof {
            assert(seen.take(i + 1).drop_last() =~= seen.take(i as int));
            assert(seen.take(i + 1).last() == observed@[i as int].1);
        }
        add_endpoint(&mut endpoints, observed[i].1);
        i += 1;
    }
    proof {
        assert(seen.take(observed@.len() as int) =~= seen);
        lemma_distinct(seen);
    }
    Some(endpoints)
}

impl Survey {
    #[verifier::type_invariant]
    spec fn wf(self) -> bool {
        self.at <= self.servers@.len() && self.failed < ATTEMPTS
    }

    pub fn new(servers: Vec<Endpoint>) -> (survey: Self)
        ensures
            survey@ == (SurveyModel { left: servers@, failed: 0, observed: Seq::empty() }),
    {
        let survey = Survey { servers, at: 0, failed: 0, observed: Vec::new() };
        assert(survey@.left =~= servers@);
        survey
    }

    /// The server to ask next; nothing, when all were asked.
    pub fn next(&self) -> (server: Option<Endpoint>)
        ensures
            server == if self@.left.len() > 0 {
                Some(self@.left[0])
            } else {
                None
            },
    {
        proof {
            use_type_invariant(self);
        }
        if self.at < self.servers.len() {
            Some(self.servers[self.at])
        } else {
            None
        }
    }

    /// The server that was asked saw an address, or did not answer.
    pub fn answered(&mut self, seen: Option<Endpoint>)
        requires
            old(self)@.left.len() > 0,
        ensures
            final(self)@ == asked(old(self)@, seen),
    {
        proof {
            use_type_invariant(&*self);
        }
        let ghost before = self@;
        let size: usize = self.servers.len();
        assert(self.at < size);
        match seen {
            Some(address) => {
                let server = self.servers[self.at];
                let mut observed: Vec<(Endpoint, Endpoint)> = Vec::new();
                std::mem::swap(&mut observed, &mut self.observed);
                observed.push((server, address));
                self.observed = observed;
                self.failed = 0;
                self.at = self.at + 1;
                assert(self@.left =~= before.left.skip(1));
            },
            None => {
                if self.failed + 1 < ATTEMPTS {
                    self.failed = self.failed + 1;
                } else {
                    self.failed = 0;
                    self.at = self.at + 1;
                    assert(self@.left =~= before.left.skip(1));
                }
            },
        }
    }

    /// The addresses of the socket, without repetitions and in the order of the servers; nothing,
    /// where no server answered.
    pub fn endpoints(&self) -> (endpoints: Option<Vec<Endpoint>>)
        ensures
            endpoints is None <==> self@.observed.len() == 0,
            endpoints matches Some(e) ==> e@ == distinct(seen_in(self@.observed)),
    {
        observed_endpoints(self.observed.as_slice())
    }

    /// What the answers show of the NAT.
    pub fn nat_hint(&self) -> (hint: Option<NatHint>)
        ensures
            hint is None <==> forall|i: int|
                0 <= i < self@.observed.len() ==> (#[trigger] self@.observed[i]).1
                    == self@.observed[0].1,
            hint == Some(NatHint::PortDepends) <==> {
                &&& exists|i: int|
                    0 <= i < self@.observed.len() && (#[trigger] self@.observed[i]).1
                        != self@.observed[0].1
                &&& forall|i: int|
                    0 <= i < self@.observed.len() ==> (#[trigger] self@.observed[i]).1.ip
                        == self@.observed[0].1.ip
            },
    {
        describe_nat(self.observed.as_slice())
    }
}

/// How many questions can still be asked.
pub open spec fn questions_left(survey: SurveyModel) -> int {
    survey.left.len() * ATTEMPTS - survey.failed
}

/// Every question brings the end nearer: no server is asked more than twice.
pub proof fn law_survey_ends(before: SurveyModel, seen: Option<Endpoint>)
    requires
        before.left.len() > 0,
        before.failed < ATTEMPTS,
    ensures
        questions_left(asked(before, seen)) < questions_left(before),
        questions_left(asked(before, seen)) >= 0,
        asked(before, seen).failed < ATTEMPTS,
        asked(before, seen).left.len() == 0 ==> asked(before, seen).failed == 0,
{
}

/// The servers are asked one after the other. One that answers is asked no more, and its answer is
/// kept beside it; one that does not is asked once more, and then passed over.
pub proof fn law_servers_are_asked_in_turn(seen: Option<Endpoint>)
    ensures
        forall|s: &mut Survey| #[trigger]
            call_ensures(Survey::answered, (s, seen), ()) && (*s)@.left.len() > 0 && (*s)@.failed <= 1
                ==> {
                let (before, after) = ((*s)@, final(s)@);
                &&& seen matches Some(address) ==> after.left == before.left.skip(1)
                    && after.observed == before.observed.push((before.left[0], address))
                &&& seen is None ==> after.observed == before.observed
                &&& seen is None && before.failed == 0 ==> after.left == before.left && after.failed
                    == 1
                &&& seen is None && before.failed == 1 ==> after.left == before.left.skip(1)
                    && after.failed == 0
            },
        forall|servers: Vec<Endpoint>, survey: Survey| #[trigger]
            call_ensures(Survey::new, (servers,), survey) ==> survey@.left == servers@
                && survey@.failed == 0 && survey@.observed.len() == 0,
        forall|s: &Survey, server: Option<Endpoint>| #[trigger]
            call_ensures(Survey::next, (s,), server) ==> (server is None <==> s@.left.len() == 0) && (
            server matches Some(e) ==> e == s@.left[0]),
{
}

/// The addresses of a socket are those that some server saw, each once, the one that was seen first
/// at their head.
pub proof fn law_every_address_that_was_seen_is_listed_once(
    observed: &[(Endpoint, Endpoint)],
    endpoints: Option<Vec<Endpoint>>,
    e: Endpoint,
)
    requires
        call_ensures(observed_endpoints, (observed,), endpoints),
    ensures
        endpoints is None <==> observed@.len() == 0,
        endpoints matches Some(all) ==> {
            &&& all@.no_duplicates()
            &&& all@.contains(e) <==> exists|i: int|
                0 <= i < observed@.len() && (#[trigger] observed@[i]).1 == e
            &&& all@[0] == observed@[0].1
        },
{
    let seen = seen_in(observed@);
    lemma_distinct(seen);
    if seen.contains(e) {
        let i = choose|i: int| 0 <= i < seen.len() && seen[i] == e;
        assert(observed@[i].1 == e);
    }
    if exists|i: int| 0 <= i < observed@.len() && (#[trigger] observed@[i]).1 == e {
        let i = choose|i: int| 0 <= i < observed@.len() && (#[trigger] observed@[i]).1 == e;
        assert(seen[i] == e);
    }
}

/// A survey has seen something once a server has answered; it tells then each address that was
/// seen, once, and the hint of the answers.
pub proof fn law_a_survey_tells_what_was_seen(
    survey: &Survey,
    endpoints: Option<Vec<Endpoint>>,
    hint: Option<NatHint>,
    i: int,
)
    requires
        call_ensures(Survey::endpoints, (survey,), endpoints),
        call_ensures(Survey::nat_hint, (survey,), hint),
        0 <= i < survey@.observed.len(),
    ensures
        endpoints matches Some(e) && e@.contains(survey@.observed[i].1),
        endpoints matches Some(e) && e@[0] == survey@.observed[0].1,
        survey@.observed[i].1 != survey@.observed[0].1 ==> hint is Some,
        survey@.observed[i].1.ip != survey@.observed[0].1.ip ==> hint != Some(NatHint::PortDepends),
        hint is None ==> survey@.observed[i].1 == survey@.observed[0].1,
{
    let seen = seen_in(survey@.observed);
    lemma_distinct(seen);
    assert(seen[i] == survey@.observed[i].1);
    assert(seen.contains(seen[i]));
}

} // verus!
