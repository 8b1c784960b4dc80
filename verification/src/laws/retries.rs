//! How often an endpoint is invoked.

use vstd::prelude::*;

use crate::resource::{Error, Resolution, Verb};
use crate::retry::{Retry, RetryEndpoint, RetryRun, Step};

verus! {

/// Whether something timed out or was unavailable.
pub open spec fn timed_out_or_unavailable<T>(outcome: Result<T, Error>) -> bool {
    outcome matches Err(error) && (error is Timeout || error is Unavailable)
}

/// What may pass by itself is a timeout and something unavailable, and nothing else.
pub proof fn law_transient_is_a_timeout_or_unavailable(error: Error, passing: bool)
    requires
        call_ensures(Error::is_transient, (&error,), passing),
    ensures
        passing <==> match error {
            Error::Timeout(_) => true,
            Error::Unavailable(_) => true,
            Error::Unresolved(_) => false,
            Error::MissingArgument(_) => false,
            Error::InvalidArgument { .. } => false,
            Error::Endpoint(_) => false,
            Error::Denied(_) => false,
            Error::NotFound(_) => false,
        },
{
}

/// Every request but a write is safe to repeat.
pub proof fn law_all_but_a_sink_may_be_repeated(verb: Verb, safe: bool)
    requires
        call_ensures(Verb::is_idempotent, (&verb,), safe),
    ensures
        safe <==> match verb {
            Verb::Source => true,
            Verb::Exists => true,
            Verb::Delete => true,
            Verb::Meta => true,
            Verb::Sink => false,
        },
{
}

/// An endpoint that is retried is the one that the wrapped space resolved to, with the attempts
/// that the overlay was made with; none is one. A miss stays a miss, and the wrapped space is the
/// one that was given.
pub proof fn law_retried_as_often_as_allowed<S, E, B>(
    space: S,
    attempts: u32,
    overlay: Retry<S>,
    wrapped: &S,
    inner: Resolution<E, B>,
    resolution: Resolution<RetryEndpoint<E>, B>,
)
    requires
        call_ensures(Retry::<S>::new, (space, attempts), overlay),
        call_ensures(Retry::<S>::inner, (&overlay,), wrapped),
        call_ensures(Retry::<S>::resolve::<E, B>, (&overlay, inner), resolution),
    ensures
        *wrapped == space,
        match inner {
            Resolution::Miss => resolution is Miss,
            Resolution::Hit(hit) => {
                &&& resolution matches Resolution::Hit(resolved)
                &&& resolved.bindings == hit.bindings
                &&& resolved.endpoint.inner == hit.endpoint
                &&& attempts >= 1 ==> resolved.endpoint.attempts == attempts
                &&& attempts == 0 ==> resolved.endpoint.attempts == 1
            },
        },
{
}

/// The run under which an endpoint is invoked for the `n`th time after the first.
proof fn lemma_nth_run<E, T>(
    endpoint: RetryEndpoint<E>,
    verb: Verb,
    runs: Seq<RetryRun>,
    outcomes: Seq<Result<T, Error>>,
    n: int,
)
    requires
        0 <= n < runs.len(),
        outcomes.len() >= runs.len(),
        call_ensures(RetryEndpoint::<E>::begin, (&endpoint, verb), runs[0]),
        forall|i: int|
            #![trigger runs[i]]
            0 <= i < runs.len() - 1 ==> call_ensures(
                RetryRun::settle::<T>,
                (runs[i], outcomes[i]),
                Step::Again(runs[i + 1]),
            ),
    ensures
        runs[n].attempt == n + 1,
        runs[n].attempts == endpoint.attempts,
        runs[n].idempotent == (verb != Verb::Sink),
        n > 0 ==> n < endpoint.attempts,
    decreases n,
{
    if n > 0 {
        lemma_nth_run(endpoint, verb, runs, outcomes, n - 1);
        assert(call_ensures(
            RetryRun::settle::<T>,
            (runs[n - 1], outcomes[n - 1]),
            Step::Again(runs[n - 1 + 1]),
        ));
    }
}

/// An endpoint is invoked again just where the verb is no write, the last invocation timed out or
/// found something unavailable, and fewer invocations were made than are allowed; else what the
/// last invocation came to is returned, as it is. So there are never more than are allowed, and
/// never more than one where there is a write.
pub proof fn law_invoked_again_just_while_it_may_help<E, T>(
    endpoint: RetryEndpoint<E>,
    verb: Verb,
    runs: Seq<RetryRun>,
    outcomes: Seq<Result<T, Error>>,
    step: Step<T>,
)
    requires
        runs.len() >= 1,
        outcomes.len() == runs.len(),
        call_ensures(RetryEndpoint::<E>::begin, (&endpoint, verb), runs[0]),
        forall|i: int|
            #![trigger runs[i]]
            0 <= i < runs.len() - 1 ==> call_ensures(
                RetryRun::settle::<T>,
                (runs[i], outcomes[i]),
                Step::Again(runs[i + 1]),
            ),
        call_ensures(RetryRun::settle::<T>, (runs.last(), outcomes.last()), step),
    ensures
        step is Again <==> verb != Verb::Sink && timed_out_or_unavailable(outcomes.last())
            && runs.len() < endpoint.attempts,
        step matches Step::Done(returned) ==> returned == outcomes.last(),
        runs.len() == 1 || runs.len() <= endpoint.attempts,
        verb == Verb::Sink ==> runs.len() == 1,
        forall|i: int|
            0 <= i < runs.len() - 1 ==> timed_out_or_unavailable(#[trigger] outcomes[i]),
{
    lemma_nth_run(endpoint, verb, runs, outcomes, runs.len() - 1);
    assert forall|i: int| 0 <= i < runs.len() - 1 implies timed_out_or_unavailable(
        #[trigger] outcomes[i],
    ) by {
        assert(call_ensures(
            RetryRun::settle::<T>,
            (runs[i], outcomes[i]),
            Step::Again(runs[i + 1]),
        ));
    }
    if verb == Verb::Sink && runs.len() > 1 {
        lemma_nth_run(endpoint, verb, runs, outcomes, 0);
        assert(call_ensures(
            RetryRun::settle::<T>,
            (runs[0], outcomes[0]),
            Step::Again(runs[1]),
        ));
    }
}

} // verus!
