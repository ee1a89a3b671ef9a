//! The routing engine: which provider a request is sent to, and what to do
//! when a provider does not answer.
//!
//! The engine decides and never waits. It names the provider to try; the
//! caller sends the request, waits for the answer within its time limit,
//! and reports what came of it.

use crate::registry::{
    ids_of,
    is_ranking,
    lemma_ranking_names_distinct,
    ranking_of,
    record_views,
    CapabilityRegistry,
};
use crate::text::texts;
use vstd::prelude::*;

verus! {

/// Why a request was not served.
#[derive(Debug, Clone, Copy, PartialEq, Eq, Structural)]
pub enum RouteError {
    /// No known peer serves the model.
    NoProviderAvailable,
    /// Every provider that could be tried was tried, and none answered.
    AllProvidersUnreachable,
}

/// What came of sending the request to a provider.
#[derive(Debug)]
pub enum AttemptOutcome {
    /// The provider answered with these bytes.
    Delivered(Vec<u8>),
    /// The provider did not answer in time, or the transport failed.
    Unreachable,
}

/// What an [`AttemptOutcome`] holds, as mathematical values.
pub enum AttemptOutcomeView {
    Delivered(Seq<u8>),
    Unreachable,
}

impl View for AttemptOutcome {
    type V = AttemptOutcomeView;

    open spec fn view(&self) -> AttemptOutcomeView {
        match self {
            AttemptOutcome::Delivered(bytes) => AttemptOutcomeView::Delivered(bytes@),
            AttemptOutcome::Unreachable => AttemptOutcomeView::Unreachable,
        }
    }
}

/// A request on its way: the providers that serve its model, in the order
/// of trial, and the one that is being tried.
pub struct Route {
    ranking: Vec<String>,
    current: usize,
    max_attempts: usize,
}

/// What a [`Route`] holds, as mathematical values.
pub struct RouteView {
    /// The identifiers of the providers, in the order of trial.
    pub ranking: Seq<Seq<char>>,
    /// The place in the ranking of the provider that is being tried.
    pub current: int,
    /// How many providers may be tried at most.
    pub max_attempts: int,
}

/// What is to be done next for a request.
pub enum RouteStep {
    /// Send the request to [`Route::provider`] and report the outcome to
    /// [`Route::next`].
    Attempt(Route),
    /// The provider answered: hand the response on, and settle.
    Done { provider_id: String, response: Vec<u8> },
    /// The request cannot be served.
    Failed(RouteError),
}

/// What a [`RouteStep`] holds, as mathematical values.
pub enum RouteStepView {
    Attempt(RouteView),
    Done { provider_id: Seq<char>, response: Seq<u8> },
    Failed(RouteError),
}

/// A route tries a provider of its ranking, within the attempts allowed,
/// and the ranking names no provider twice.
pub open spec fn route_valid(v: RouteView) -> bool {
    &&& 0 <= v.current < v.ranking.len()
    &&& v.current < v.max_attempts
    &&& v.ranking.no_duplicates()
}

/// The provider that is being tried.
pub open spec fn provider(v: RouteView) -> Seq<char> {
    v.ranking[v.current]
}

/// The providers tried so far, the current one included.
pub open spec fn attempted(v: RouteView) -> Seq<Seq<char>> {
    v.ranking.take(v.current + 1)
}

/// How many providers the route may try in all: each one once, and no more
/// than the attempts allowed.
pub open spec fn attempts_allowed(v: RouteView) -> int {
    if v.ranking.len() <= v.max_attempts {
        v.ranking.len() as int
    } else {
        v.max_attempts
    }
}

/// The first step for a request, given the ranking of its providers.
pub open spec fn first_step(ranking: Seq<Seq<char>>, max_attempts: int) -> RouteStepView {
    if ranking.len() == 0 {
        RouteStepView::Failed(RouteError::NoProviderAvailable)
    } else if max_attempts <= 0 {
        RouteStepView::Failed(RouteError::AllProvidersUnreachable)
    } else {
        RouteStepView::Attempt(RouteView { ranking, current: 0, max_attempts })
    }
}

/// The step after an attempt: an answer ends the request; otherwise the
/// next provider of the ranking is tried, if one is left and allowed.
pub open spec fn next_step(v: RouteView, outcome: AttemptOutcomeView) -> RouteStepView {
    match outcome {
        AttemptOutcomeView::Delivered(response) => RouteStepView::Done {
            provider_id: provider(v),
            response,
        },
        AttemptOutcomeView::Unreachable => if v.current + 1 < attempts_allowed(v) {
            RouteStepView::Attempt(RouteView { current: v.current + 1, ..v })
        } else {
            RouteStepView::Failed(RouteError::AllProvidersUnreachable)
        },
    }
}

/// Where a request stands after the given outcomes, one for each attempt
/// made. Outcomes that arrive after the request has ended change nothing.
pub open spec fn run(step: RouteStepView, outcomes: Seq<AttemptOutcomeView>) -> RouteStepView
    decreases outcomes.len(),
{
    if outcomes.len() == 0 {
        step
    } else {
        match step {
            RouteStepView::Attempt(v) => run(next_step(v, outcomes[0]), outcomes.skip(1)),
            _ => step,
        }
    }
}

/// The providers that a request is sent to, in this order, when the
/// attempts have the given outcomes.
pub open spec fn tried(step: RouteStepView, outcomes: Seq<AttemptOutcomeView>) -> Seq<Seq<char>>
    decreases outcomes.len(),
{
    match step {
        RouteStepView::Attempt(v) => if outcomes.len() == 0 {
            seq![provider(v)]
        } else {
            seq![provider(v)] + tried(next_step(v, outcomes[0]), outcomes.skip(1))
        },
        _ => Seq::empty(),
    }
}

/// A step of a valid route leads to a valid route, which tries the next
/// provider of the same ranking.
pub proof fn lemma_next_step_valid(v: RouteView, outcome: AttemptOutcomeView)
    requires
        route_valid(v),
    ensures
        next_step(v, outcome) matches RouteStepView::Attempt(w) ==> {
            &&& route_valid(w)
            &&& w.ranking == v.ranking
            &&& w.max_attempts == v.max_attempts
            &&& w.current == v.current + 1
            &&& outcome is Unreachable
            &&& !attempted(v).contains(provider(w))
        },
{
    if let RouteStepView::Attempt(w) = next_step(v, outcome) {
        if attempted(v).contains(provider(w)) {
            let i = choose|i: int| 0 <= i < attempted(v).len() && attempted(v)[i] == provider(w);
            assert(v.ranking[i] == v.ranking[w.current]);
        }
    }
}

/// No provider is tried twice for one request: the providers tried are a
/// stretch of the ranking, from the current one on, and differ from each
/// other.
pub proof fn lemma_never_retries(v: RouteView, outcomes: Seq<AttemptOutcomeView>)
    requires
        route_valid(v),
    ensures
        tried(RouteStepView::Attempt(v), outcomes).len() >= 1,
        v.current + tried(RouteStepView::Attempt(v), outcomes).len() <= attempts_allowed(v),
        tried(RouteStepView::Attempt(v), outcomes) == v.ranking.subrange(
            v.current,
            v.current + tried(RouteStepView::Attempt(v), outcomes).len(),
        ),
        tried(RouteStepView::Attempt(v), outcomes).no_duplicates(),
    decreases outcomes.len(),
{
    let start = RouteStepView::Attempt(v);
    let t = tried(start, outcomes);
    if outcomes.len() == 0 {
        assert(t =~= v.ranking.subrange(v.current, v.current + 1));
    } else {
        lemma_next_step_valid(v, outcomes[0]);
        match next_step(v, outcomes[0]) {
            RouteStepView::Attempt(w) => {
                lemma_never_retries(w, outcomes.skip(1));
                let rest = tried(RouteStepView::Attempt(w), outcomes.skip(1));
                assert(t =~= seq![provider(v)] + rest);
                assert(t =~= v.ranking.subrange(v.current, v.current + t.len()));
            },
            _ => {
                assert(tried(next_step(v, outcomes[0]), outcomes.skip(1)) =~= Seq::<
                    Seq<char>,
                >::empty());
                assert(t =~= seq![provider(v)]);
                assert(t =~= v.ranking.subrange(v.current, v.current + 1));
            },
        }
    }
    assert(t.no_duplicates()) by {
        assert forall|i: int, j: int| 0 <= i < t.len() && 0 <= j < t.len() && i != j implies t[i]
            != t[j] by {
            assert(t[i] == v.ranking[v.current + i]);
            assert(t[j] == v.ranking[v.current + j]);
        }
    }
}

/// A request fails as unreachable only after every provider that the route
/// may try was tried and did not answer, the last of the ranking included
/// where the attempts allowed reach that far.
pub proof fn lemma_unreachable_after_all_tried(v: RouteView, outcomes: Seq<AttemptOutcomeView>)
    requires
        route_valid(v),
        run(RouteStepView::Attempt(v), outcomes) == RouteStepView::Failed(
            RouteError::AllProvidersUnreachable,
        ),
    ensures
        v.current + tried(RouteStepView::Attempt(v), outcomes).len() == attempts_allowed(v),
        v.max_attempts >= v.ranking.len() ==> tried(RouteStepView::Attempt(v), outcomes)
            == v.ranking.skip(v.current),
        outcomes.len() >= attempts_allowed(v) - v.current,
        forall|i: int| 0 <= i < attempts_allowed(v) - v.current ==> outcomes[i] is Unreachable,
    decreases outcomes.len(),
{
    let start = RouteStepView::Attempt(v);
    lemma_never_retries(v, outcomes);
    if outcomes.len() > 0 {
        lemma_next_step_valid(v, outcomes[0]);
        match next_step(v, outcomes[0]) {
            RouteStepView::Attempt(w) => {
                lemma_unreachable_after_all_tried(w, outcomes.skip(1));
                let rest = tried(RouteStepView::Attempt(w), outcomes.skip(1));
                assert(tried(start, outcomes) =~= seq![provider(v)] + rest);
                assert forall|i: int| 0 <= i < attempts_allowed(v) - v.current implies outcomes[i]
                    is Unreachable by {
                    if i > 0 {
                        assert(outcomes.skip(1)[i - 1] == outcomes[i]);
                    }
                }
            },
            RouteStepView::Done { .. } => {
                assert(run(next_step(v, outcomes[0]), outcomes.skip(1)) == next_step(
                    v,
                    outcomes[0],
                )) by {
                    reveal_with_fuel(run, 2);
                }
            },
            RouteStepView::Failed(_) => {
                assert(tried(next_step(v, outcomes[0]), outcomes.skip(1)) =~= Seq::<
                    Seq<char>,
                >::empty());
                assert(tried(start, outcomes) =~= seq![provider(v)]);
            },
        }
    }
    if v.max_attempts >= v.ranking.len() {
        assert(tried(start, outcomes) =~= v.ranking.skip(v.current));
    }
}

/// A request that may try every provider of its ranking fails as
/// unreachable only after it was sent to each of them, once, in the order
/// of the ranking.
pub proof fn lemma_request_exhausts_ranking(
    ranking: Seq<Seq<char>>,
    max_attempts: int,
    outcomes: Seq<AttemptOutcomeView>,
)
    requires
        ranking.no_duplicates(),
        ranking.len() > 0,
        max_attempts >= ranking.len(),
        run(first_step(ranking, max_attempts), outcomes) == RouteStepView::Failed(
            RouteError::AllProvidersUnreachable,
        ),
    ensures
        tried(first_step(ranking, max_attempts), outcomes) == ranking,
        tried(first_step(ranking, max_attempts), outcomes).no_duplicates(),
        outcomes.len() >= ranking.len(),
        forall|i: int| 0 <= i < ranking.len() ==> outcomes[i] is Unreachable,
{
    let v = RouteView { ranking, current: 0, max_attempts };
    lemma_unreachable_after_all_tried(v, outcomes);
    assert(ranking.skip(0) =~= ranking);
}

impl View for Route {
    type V = RouteView;

    closed spec fn view(&self) -> RouteView {
        RouteView {
            ranking: texts(self.ranking@),
            current: self.current as int,
            max_attempts: self.max_attempts as int,
        }
    }
}

impl View for RouteStep {
    type V = RouteStepView;

    open spec fn view(&self) -> RouteStepView {
        match self {
            RouteStep::Attempt(route) => RouteStepView::Attempt(route@),
            RouteStep::Done { provider_id, response } => RouteStepView::Done {
                provider_id: provider_id@,
                response: response@,
            },
            RouteStep::Failed(e) => RouteStepView::Failed(*e),
        }
    }
}

impl Route {
    #[verifier::type_invariant]
    spec fn valid(self) -> bool {
        route_valid(self@)
    }

    /// The first step for a request for `model`: the best provider that the
    /// registry knows is to be tried, if there is one and an attempt is
    /// allowed.
    pub fn begin(registry: &CapabilityRegistry, model: &str, max_attempts: usize) -> (step:
        RouteStep)
        ensures
            is_ranking(ranking_of(registry@, model@), registry@, model@),
            step@ == first_step(ids_of(ranking_of(registry@, model@)), max_attempts as int),
            step matches RouteStep::Attempt(route) ==> route_valid(route@),
    {
        let candidates = registry.candidates(model);
        let ghost ranking = record_views(candidates@);
        proof {
            lemma_ranking_names_distinct(ranking, registry@, model@);
        }
        if candidates.len() == 0 {
            return RouteStep::Failed(RouteError::NoProviderAvailable);
        }
        if max_attempts == 0 {
            return RouteStep::Failed(RouteError::AllProvidersUnreachable);
        }
        let mut ids: Vec<String> = Vec::new();
        let mut i: usize = 0;
        while i < candidates.len()
            invariant
                i <= candidates.len(),
                ranking == record_views(candidates@),
                texts(ids@) == ids_of(ranking).take(i as int),
            decreases candidates.len() - i,
        {
            let ghost before = ids@;
            ids.push(candidates[i].node_id.clone());
            assert(texts(ids@) =~= texts(before).push(candidates@[i as int].node_id@));
            assert(ids_of(ranking).take(i + 1) =~= ids_of(ranking).take(i as int).push(
                ranking[i as int].node_id,
            ));
            i += 1;
        }
        assert(ids_of(ranking).take(i as int) =~= ids_of(ranking));
        RouteStep::Attempt(Route { ranking: ids, current: 0, max_attempts })
    }

    /// The identifier of the provider that is being tried.
    pub fn provider(&self) -> (id: String)
        ensures
            route_valid(self@),
            id@ == provider(self@),
    {
        proof {
            use_type_invariant(self);
        }
        self.ranking[self.current].clone()
    }

    /// How many providers were tried, the current one included.
    pub fn attempts(&self) -> (n: usize)
        ensures
            route_valid(self@),
            n == attempted(self@).len(),
            n == self@.current + 1,
    {
        proof {
            use_type_invariant(self);
        }
        self.current + 1
    }

    /// The step after the attempt at the current provider had `outcome`.
    pub fn next(self, outcome: AttemptOutcome) -> (step: RouteStep)
        ensures
            route_valid(self@),
            step@ == next_step(self@, outcome@),
            step matches RouteStep::Attempt(route) ==> route_valid(route@),
    {
        proof {
            use_type_invariant(&self);
            lemma_next_step_valid(self@, outcome@);
        }
        let Route { ranking, current, max_attempts } = self;
        match outcome {
            AttemptOutcome::Delivered(response) => RouteStep::Done {
                provider_id: ranking[current].clone(),
                response,
            },
            AttemptOutcome::Unreachable => {
                if current + 1 < ranking.len() && current + 1 < max_attempts {
                    RouteStep::Attempt(Route { ranking, current: current + 1, max_attempts })
                } else {
                    RouteStep::Failed(RouteError::AllProvidersUnreachable)
                }
            },
        }
    }
}

} // verus!
