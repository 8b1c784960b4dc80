//! Re-issuing after a transient failure.

use vstd::prelude::*;

use crate::resource::{idempotent, transient, Error, Resolution, Resolved, Verb};

verus! {

/// An overlay that re-issues a resolution on a transient failure. A resolved endpoint is invoked
/// again, up to a number of attempts in all, while the failure is transient and the verb
/// idempotent. A [`Verb::Sink`] is never retried: a blind re-send could write twice. A permanent
/// failure is returned at once.
pub struct Retry<S> {
    inner: S,
    attempts: u32,
}

impl<S> Retry<S> {
    /// The space that is wrapped.
    pub closed spec fn wrapped(&self) -> S {
        self.inner
    }

    /// How often a resolved endpoint may be invoked in all.
    pub closed spec fn attempts(&self) -> u32 {
        self.attempts
    }

    /// Wrap `inner`, allowing up to `attempts` invocations in all of a resolved endpoint; `1` is
    /// no retry, and so is `0`.
    pub fn new(inner: S, attempts: u32) -> (overlay: Retry<S>)
        ensures
            overlay.wrapped() == inner,
            overlay.attempts() == if attempts < 1 {
                1
            } else {
                attempts
            },
    {
        let attempts: u32 = if attempts < 1 {
            1
        } else {
            attempts
        };
        Retry { inner, attempts }
    }

    /// The space that is wrapped.
    pub fn inner(&self) -> (inner: &S)
        ensures
            *inner == self.wrapped(),
    {
        &self.inner
    }

    /// What a request resolves to, given what the wrapped space resolved it to: a hit keeps its
    /// bindings, and its endpoint is wrapped.
    pub fn resolve<E, B>(&self, inner: Resolution<E, B>) -> (resolution: Resolution<
        RetryEndpoint<E>,
        B,
    >)
        ensures
            resolution == match inner {
                Resolution::Hit(hit) => Resolution::Hit(
                    Resolved {
                        endpoint: RetryEndpoint {
                            inner: hit.endpoint,
                            attempts: self.attempts(),
                        },
                        bindings: hit.bindings,
                    },
                ),
                Resolution::Miss => Resolution::Miss,
            },
    {
        match inner {
            Resolution::Hit(hit) => Resolution::Hit(
                Resolved {
                    endpoint: RetryEndpoint { inner: hit.endpoint, attempts: self.attempts },
                    bindings: hit.bindings,
                },
            ),
            Resolution::Miss => Resolution::Miss,
        }
    }
}

/// The endpoint that a [`Retry`] resolves to.
///
/// A host that serves an invocation [`begin`](Self::begin)s a run, invokes the inner endpoint,
/// and tells the run what came of it; it does so again for as long as the run says so.
pub struct RetryEndpoint<E> {
    /// The endpoint that is wrapped.
    pub inner: E,
    /// How often it may be invoked in all.
    pub attempts: u32,
}

/// One invocation of a [`RetryEndpoint`], while it lasts.
pub struct RetryRun {
    /// Which invocation of the inner endpoint is under way, counted from one.
    pub attempt: u32,
    /// How many there may be.
    pub attempts: u32,
    /// Whether the verb may be re-issued.
    pub idempotent: bool,
}

/// What is to be done once an invocation of the inner endpoint is over.
pub enum Step<T> {
    /// Invoke the inner endpoint again, under this run.
    Again(RetryRun),
    /// Return this.
    Done(Result<T, Error>),
}

/// Whether what came of an invocation is a transient failure.
pub open spec fn failed_transiently<T>(outcome: Result<T, Error>) -> bool {
    outcome matches Err(error) && transient(error)
}

/// Whether the inner endpoint is to be invoked again after `outcome`.
pub open spec fn goes_on<T>(run: RetryRun, outcome: Result<T, Error>) -> bool {
    failed_transiently(outcome) && run.idempotent && run.attempt < run.attempts
}

/// The run, one attempt later.
pub open spec fn next_attempt(run: RetryRun) -> RetryRun {
    RetryRun { attempt: (run.attempt + 1) as u32, ..run }
}

/// The run with which an invocation begins.
pub open spec fn first_attempt(attempts: u32, verb: Verb) -> RetryRun {
    RetryRun { attempt: 1, attempts, idempotent: idempotent(verb) }
}

impl<E> RetryEndpoint<E> {
    /// Begins to serve an invocation with this verb; the inner endpoint is to be invoked.
    pub fn begin(&self, verb: Verb) -> (run: RetryRun)
        ensures
            run == first_attempt(self.attempts, verb),
    {
        RetryRun { attempt: 1, attempts: self.attempts, idempotent: verb.is_idempotent() }
    }
}

impl RetryRun {
    /// Takes what came of the invocation under way, and says what is to be done.
    pub fn settle<T>(self, outcome: Result<T, Error>) -> (step: Step<T>)
        ensures
            step == if goes_on(self, outcome) {
                Step::Again(next_attempt(self))
            } else {
                Step::Done(outcome)
            },
    {
        match outcome {
            Ok(representation) => Step::Done(Ok(representation)),
            Err(error) => {
                if error.is_transient() && self.idempotent && self.attempt < self.attempts {
                    Step::Again(
                        RetryRun {
                            attempt: self.attempt + 1,
                            attempts: self.attempts,
                            idempotent: self.idempotent,
                        },
                    )
                } else {
                    Step::Done(Err(error))
                }
            },
        }
    }
}

/// How often the inner endpoint is invoked, from this run on, where it answers its invocations
/// with `answers` in that order.
pub open spec fn invocations<T>(run: RetryRun, answers: Seq<Result<T, Error>>) -> nat
    decreases answers.len(),
{
    if answers.len() == 0 {
        0
    } else if goes_on(run, answers[0]) {
        1 + invocations(next_attempt(run), answers.drop_first())
    } else {
        1
    }
}

/// What is returned, where the inner endpoint answers its invocations with `answers`: the answer
/// to the last of them.
pub open spec fn returned<T>(run: RetryRun, answers: Seq<Result<T, Error>>) -> Result<T, Error> {
    answers[invocations(run, answers) - 1]
}

/// Where a run ends.
proof fn lemma_invocations<T>(run: RetryRun, answers: Seq<Result<T, Error>>)
    requires
        run.attempt >= 1,
        answers.len() > 0,
        answers.len() + run.attempt > run.attempts,
    ensures
        1 <= invocations(run, answers) <= answers.len(),
        invocations(run, answers) == 1 || run.attempt + invocations(run, answers) - 1
            <= run.attempts,
        !run.idempotent ==> invocations(run, answers) == 1,
        forall|i: int|
            0 <= i < invocations(run, answers) - 1 ==> failed_transiently(#[trigger] answers[i]),
        run.idempotent && failed_transiently(answers[invocations(run, answers) - 1]) ==> run.attempt
            + invocations(run, answers) - 1 >= run.attempts,
    decreases answers.len(),
{
    if goes_on(run, answers[0]) {
        let rest = answers.drop_first();
        lemma_invocations(next_attempt(run), rest);
        assert forall|i: int| 0 <= i < invocations(run, answers) - 1 implies failed_transiently(
            #[trigger] answers[i],
        ) by {
            if i > 0 {
                assert(rest[i - 1] == answers[i]);
            }
        }
        assert(rest[invocations(next_attempt(run), rest) - 1] == answers[invocations(run, answers)
            - 1]);
    }
}

/// An endpoint is never invoked more often than it may be, and every invocation but the last
/// failed transiently. It is given up on only when it succeeded, when it failed for good, when
/// the verb is not idempotent, or when its attempts are spent; what is returned is what the last
/// invocation answered.
pub proof fn law_retries_until_settled_or_spent<T>(
    attempts: u32,
    verb: Verb,
    answers: Seq<Result<T, Error>>,
)
    requires
        attempts >= 1,
        answers.len() >= attempts,
    ensures
        ({
            let run = first_attempt(attempts, verb);
            let made = invocations(run, answers);
            &&& 1 <= made <= attempts
            &&& forall|i: int| 0 <= i < made - 1 ==> failed_transiently(#[trigger] answers[i])
            &&& returned(run, answers) == answers[made - 1]
            &&& idempotent(verb) && failed_transiently(returned(run, answers))
                ==> made == attempts
        }),
{
    lemma_invocations(first_attempt(attempts, verb), answers);
}

/// A sink is invoked exactly once, whatever it answers, and so is any endpoint that is allowed
/// one attempt.
pub proof fn law_never_sent_twice<T>(attempts: u32, verb: Verb, answers: Seq<Result<T, Error>>)
    requires
        verb == Verb::Sink || attempts == 1,
        answers.len() >= 1,
    ensures
        invocations(first_attempt(attempts, verb), answers) == 1,
        returned(first_attempt(attempts, verb), answers) == answers[0],
{
}

/// An answer that is no transient failure is returned at once, a success and a permanent failure
/// alike.
pub proof fn law_what_is_settled_is_returned_at_once<T>(
    attempts: u32,
    verb: Verb,
    answers: Seq<Result<T, Error>>,
)
    requires
        answers.len() >= 1,
        !failed_transiently(answers[0]),
    ensures
        invocations(first_attempt(attempts, verb), answers) == 1,
        returned(first_attempt(attempts, verb), answers) == answers[0],
{
}

/// There are no more invocations than answers.
proof fn lemma_an_answer_each<T>(run: RetryRun, answers: Seq<Result<T, Error>>)
    ensures
        invocations(run, answers) <= answers.len(),
    decreases answers.len(),
{
    if answers.len() > 0 && goes_on(run, answers[0]) {
        lemma_an_answer_each(next_attempt(run), answers.drop_first());
    }
}

/// A run that settled within its attempts settles alike with more.
proof fn lemma_more_attempts<T>(run: RetryRun, more: u32, answers: Seq<Result<T, Error>>)
    requires
        run.attempts <= more,
        answers.len() >= 1,
        !failed_transiently(returned(run, answers)),
    ensures
        invocations(RetryRun { attempts: more, ..run }, answers) == invocations(run, answers),
    decreases answers.len(),
{
    if goes_on(run, answers[0]) {
        let next = next_attempt(run);
        let rest = answers.drop_first();
        lemma_an_answer_each(next, rest);
        assert(returned(next, rest) == returned(run, answers));
        lemma_more_attempts(next, more, rest);
        assert(next_attempt((RetryRun { attempts: more, ..run })) == (RetryRun {
            attempts: more,
            ..next
        }));
    }
}

/// Only what is not settled is affected by the allowance: where a run ended in a success or in a
/// permanent failure, a larger allowance gives the same result after as many invocations.
pub proof fn law_larger_allowance_changes_nothing_settled<T>(
    attempts: u32,
    more: u32,
    verb: Verb,
    answers: Seq<Result<T, Error>>,
)
    requires
        attempts <= more,
        answers.len() >= 1,
        !failed_transiently(returned(first_attempt(attempts, verb), answers)),
    ensures
        invocations(first_attempt(more, verb), answers) == invocations(
            first_attempt(attempts, verb),
            answers,
        ),
        returned(first_attempt(more, verb), answers) == returned(
            first_attempt(attempts, verb),
            answers,
        ),
{
    lemma_more_attempts(first_attempt(attempts, verb), more, answers);
}

/// A blip is ridden out: where an idempotent request fails transiently fewer times than there are
/// attempts, and then answers otherwise, that answer is returned.
pub proof fn law_blips_are_ridden_out<T>(
    attempts: u32,
    verb: Verb,
    answers: Seq<Result<T, Error>>,
    blips: int,
)
    requires
        idempotent(verb),
        0 <= blips < attempts,
        answers.len() >= attempts,
        forall|i: int| 0 <= i < blips ==> failed_transiently(#[trigger] answers[i]),
        !failed_transiently(answers[blips]),
    ensures
        invocations(first_attempt(attempts, verb), answers) == blips + 1,
        returned(first_attempt(attempts, verb), answers) == answers[blips],
{
    let run = first_attempt(attempts, verb);
    lemma_invocations(run, answers);
    let made = invocations(run, answers);
    if made - 1 < blips {
        assert(failed_transiently(answers[made - 1]));
    }
    if blips < made - 1 {
        assert(failed_transiently(answers[blips]));
    }
}

} // verus!
