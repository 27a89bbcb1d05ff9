//! The bounded-retry query/response protocol: one PTR query per attempt,
//! an immediate retry on transport failure up to a fixed total of four
//! attempts, and a terminal decision on every response.
//!
//! The DNS transport itself is an external collaborator: the caller issues
//! each query, reduces what came back to a [`QueryOutcome`], and feeds it
//! to [`ResolverState::step`], which decides whether to query again or to
//! finish, and with what result.

use vstd::prelude::*;

verus! {

/// Total number of query attempts allowed for one name: the first attempt
/// plus at most three retries.
pub const MAX_TOTAL_ATTEMPTS: usize = 4;

/// What one query attempt produced, as the protocol reads it.
#[derive(PartialEq, Eq, Debug)]
pub enum QueryOutcome {
    /// The query failed in transport: no usable response arrived.
    TransportFailure,
    /// A response arrived whose answer section is empty.
    EmptyAnswer,
    /// A response arrived whose first answer is not a PTR record.
    NonPtrAnswer,
    /// A response arrived whose first answer is a PTR record with this
    /// target name.
    PtrAnswer(String),
}

/// The resolver's progress for one name: how many query attempts have
/// been made so far.
#[derive(Clone, Copy, PartialEq, Eq, Structural, Debug)]
pub struct ResolverState {
    pub attempts: usize,
}

/// The protocol's decision after one attempt: query again from the given
/// state, or finish with the given result (`None` covers "no record",
/// "wrong record type" and "exhausted retries" alike).
#[derive(PartialEq, Eq, Debug)]
pub enum ResolverStep {
    Retry(ResolverState),
    Finished(Option<String>),
}

/// The protocol's decision function: a PTR answer finishes with its target,
/// an empty or non-PTR answer finishes with no result and no retry, and a
/// transport failure retries until the attempt budget is spent.
pub open spec fn spec_step(s: ResolverState, outcome: QueryOutcome) -> ResolverStep {
    match outcome {
        QueryOutcome::PtrAnswer(name) => ResolverStep::Finished(Some(name)),
        QueryOutcome::EmptyAnswer => ResolverStep::Finished(None),
        QueryOutcome::NonPtrAnswer => ResolverStep::Finished(None),
        QueryOutcome::TransportFailure => {
            if s.attempts + 1 < MAX_TOTAL_ATTEMPTS {
                ResolverStep::Retry(ResolverState { attempts: (s.attempts + 1) as usize })
            } else {
                ResolverStep::Finished(None)
            }
        },
    }
}

impl ResolverState {
    /// The state before the first query attempt.
    pub fn new() -> (r: ResolverState)
        ensures
            r.attempts == 0,
    {
        ResolverState { attempts: 0 }
    }

    /// Consumes the outcome of the attempt just made and decides how to
    /// go on.
    pub fn step(self, outcome: QueryOutcome) -> (r: ResolverStep)
        requires
            self.attempts < MAX_TOTAL_ATTEMPTS,
        ensures
            r == spec_step(self, outcome),
    {
        match outcome {
            QueryOutcome::PtrAnswer(name) => ResolverStep::Finished(Some(name)),
            QueryOutcome::EmptyAnswer => ResolverStep::Finished(None),
            QueryOutcome::NonPtrAnswer => ResolverStep::Finished(None),
            QueryOutcome::TransportFailure => {
                if self.attempts + 1 < MAX_TOTAL_ATTEMPTS {
                    ResolverStep::Retry(ResolverState { attempts: self.attempts + 1 })
                } else {
                    ResolverStep::Finished(None)
                }
            },
        }
    }
}

/// The whole protocol run, as a function of the outcomes that successive
/// attempts would produce: the result, and how many attempts were made.
/// This is what a caller's query loop computes when it starts from
/// [`ResolverState::new`] and obeys each [`ResolverStep`].
pub open spec fn spec_resolve_from(outcomes: Seq<QueryOutcome>, s: ResolverState) -> (Option<
    String,
>, int)
    decreases outcomes.len(),
{
    if outcomes.len() == 0 {
        (None, 0)
    } else {
        match spec_step(s, outcomes[0]) {
            ResolverStep::Finished(r) => (r, 1),
            ResolverStep::Retry(s2) => {
                let rest = spec_resolve_from(outcomes.drop_first(), s2);
                (rest.0, 1 + rest.1)
            },
        }
    }
}

/// The protocol run from the initial state.
pub open spec fn spec_resolve(outcomes: Seq<QueryOutcome>) -> (Option<String>, int) {
    spec_resolve_from(outcomes, ResolverState { attempts: 0 })
}

/// A name with no PTR record anywhere: the first response has an empty
/// answer section, and the protocol finishes with no result after exactly
/// one attempt — absence of an answer is not a transport failure, so
/// nothing is retried.
pub proof fn lemma_empty_answer_one_attempt(outcomes: Seq<QueryOutcome>)
    requires
        outcomes.len() >= 1,
        outcomes[0] == QueryOutcome::EmptyAnswer,
    ensures
        spec_resolve(outcomes).0 is None,
        spec_resolve(outcomes).1 == 1,
{
}

/// A transport that always fails: the protocol finishes with no result
/// after exactly four attempts in total.
pub proof fn lemma_transport_failure_four_attempts(outcomes: Seq<QueryOutcome>)
    requires
        outcomes.len() >= 4,
        forall|i: int| 0 <= i < outcomes.len() ==> outcomes[i] == QueryOutcome::TransportFailure,
    ensures
        spec_resolve(outcomes).0 is None,
        spec_resolve(outcomes).1 == 4,
{
    let o1 = outcomes.drop_first();
    let o2 = o1.drop_first();
    let o3 = o2.drop_first();
    assert(o1[0] == outcomes[1]);
    assert(o2[0] == outcomes[2]);
    assert(o3[0] == outcomes[3]);
    assert(spec_resolve_from(o3, ResolverState { attempts: 3 }).1 == 1);
    assert(spec_resolve_from(o2, ResolverState { attempts: 2 }).1 == 2);
    assert(spec_resolve_from(o1, ResolverState { attempts: 1 }).1 == 3);
}

} // verus!
