//! Circuit breaking: a dependency that keeps failing is left alone for a while.

use std::time::Instant;

use vstd::hash_map::StringHashMap;
use vstd::prelude::*;
use vstd::string::StringExecFns;

use crate::resource::{transient, Error, Request, Resolution, Resolved};
use crate::retry::failed_transiently;
use crate::time::{elapsed, reads, Clock, Moment, Span};

verus! {

/// The circuit of one target.
#[derive(Clone, Copy)]
pub struct Breaker {
    /// Transient failures since the last success.
    pub failures: u32,
    /// When the circuit tripped open, if it is open.
    pub opened_at: Option<Moment>,
}

/// A closed circuit without a failure.
pub open spec fn closed_circuit() -> Breaker {
    Breaker { failures: 0, opened_at: None }
}

/// Whether a circuit is open and still cooling at `now`.
pub open spec fn cooling(circuit: Breaker, cooldown: Span, now: Moment) -> bool {
    circuit.opened_at matches Some(opened) && elapsed(now@, opened@) < cooldown@
}

/// A circuit after an invocation that came to `outcome` at `now`. A success closes it. A
/// transient failure counts, and opens it as of `now` once there are `threshold` of them. A
/// permanent failure leaves it as it was.
pub open spec fn settled<T>(
    circuit: Breaker,
    threshold: u32,
    outcome: Result<T, Error>,
    now: Moment,
) -> Breaker {
    match outcome {
        Ok(_) => closed_circuit(),
        Err(error) => if transient(error) {
            Breaker {
                failures: (circuit.failures + 1) as u32,
                opened_at: if circuit.failures + 1 >= threshold {
                    Some(now)
                } else {
                    circuit.opened_at
                },
            }
        } else {
            circuit
        },
    }
}

/// The circuits of a [`CircuitBreaker`], by target; one that was never told of is closed. The
/// endpoints that it resolves to share them. A host keeps them behind a lock.
pub struct Breakers {
    circuits: StringHashMap<Breaker>,
    clock: Clock,
}

impl Breakers {
    /// The circuit of `target`.
    pub closed spec fn circuit(&self, target: Seq<char>) -> Breaker {
        if self.circuits@.contains_key(target) {
            self.circuits@[target]
        } else {
            closed_circuit()
        }
    }

    /// The moment from which the clock of these circuits counts, and so every moment at which one
    /// of them opened.
    pub closed spec fn origin(&self) -> Instant {
        self.clock.origin()
    }

    /// Circuits that are all closed.
    pub fn new() -> (breakers: Breakers)
        ensures
            forall|target: Seq<char>| #[trigger] breakers.circuit(target) == closed_circuit(),
    {
        Breakers { circuits: StringHashMap::new(), clock: Clock::new() }
    }

    /// The circuit of `target`.
    pub fn get(&self, target: &str) -> (circuit: Breaker)
        ensures
            circuit == self.circuit(target@),
    {
        match self.circuits.get(target) {
            Some(circuit) => *circuit,
            None => Breaker { failures: 0, opened_at: None },
        }
    }

    /// Replaces the circuit of `target`.
    fn put(&mut self, target: &String, circuit: Breaker)
        ensures
            final(self).origin() == old(self).origin(),
            final(self).circuit(target@) == circuit,
            forall|other: Seq<char>|
                other != target@ ==> #[trigger] final(self).circuit(other) == old(self).circuit(
                    other,
                ),
    {
        self.circuits.insert(target.clone(), circuit);
    }
}

/// An overlay that counts consecutive transient failures per target. After a threshold of them
/// it trips open and, for a cooldown, fails fast without touching the dependency, so a dead
/// resource stops being hammered. Once the cooldown has elapsed it is half-open: the next call
/// probes the dependency. A success closes the circuit, another transient failure opens it anew.
/// Permanent failures pass through and do not count.
pub struct CircuitBreaker<S> {
    inner: S,
    threshold: u32,
    cooldown: Span,
}

impl<S> CircuitBreaker<S> {
    /// The space that is wrapped.
    pub closed spec fn wrapped(&self) -> S {
        self.inner
    }

    /// How many consecutive transient failures trip a circuit.
    pub closed spec fn threshold(&self) -> u32 {
        self.threshold
    }

    /// How long a circuit stays open before a probe.
    pub closed spec fn cooldown(&self) -> Span {
        self.cooldown
    }

    /// Wrap `inner`; trip open after `threshold` consecutive transient failures, but after one
    /// at the least, staying open for `cooldown` before a half-open probe.
    pub fn new(inner: S, threshold: u32, cooldown: Span) -> (overlay: CircuitBreaker<S>)
        ensures
            overlay.wrapped() == inner,
            overlay.threshold() == if threshold < 1 {
                1
            } else {
                threshold
            },
            overlay.cooldown() == cooldown,
    {
        let threshold: u32 = if threshold < 1 {
            1
        } else {
            threshold
        };
        CircuitBreaker { inner, threshold, cooldown }
    }

    /// The space that is wrapped.
    pub fn inner(&self) -> (inner: &S)
        ensures
            *inner == self.wrapped(),
    {
        &self.inner
    }

    /// What a request resolves to, given what the wrapped space resolved it to: a hit keeps its
    /// bindings, and its endpoint is put behind the circuit of the target.
    pub fn resolve<E, B>(&self, request: &Request, inner: Resolution<E, B>) -> (resolution:
        Resolution<BreakerEndpoint<E>, B>)
        ensures
            match inner {
                Resolution::Hit(hit) => {
                    &&& resolution is Hit
                    &&& resolution->Hit_0.bindings == hit.bindings
                    &&& resolution->Hit_0.endpoint.inner == hit.endpoint
                    &&& resolution->Hit_0.endpoint.target@ == request.target@
                    &&& resolution->Hit_0.endpoint.threshold == self.threshold()
                    &&& resolution->Hit_0.endpoint.cooldown == self.cooldown()
                },
                Resolution::Miss => resolution is Miss,
            },
    {
        match inner {
            Resolution::Hit(hit) => Resolution::Hit(
                Resolved {
                    endpoint: BreakerEndpoint {
                        inner: hit.endpoint,
                        target: request.target.clone(),
                        threshold: self.threshold,
                        cooldown: self.cooldown,
                    },
                    bindings: hit.bindings,
                },
            ),
            Resolution::Miss => Resolution::Miss,
        }
    }
}

/// The endpoint that a [`CircuitBreaker`] resolves to.
///
/// A host that serves an invocation first [`enter`](Self::enter)s. It returns the error where
/// there is one; else it invokes the inner endpoint and has the circuit [`settle`](Self::settle)
/// what came of it.
pub struct BreakerEndpoint<E> {
    /// The endpoint that is wrapped.
    pub inner: E,
    /// The target whose circuit it is behind.
    pub target: String,
    /// How many consecutive transient failures trip the circuit.
    pub threshold: u32,
    /// How long the circuit stays open before a probe.
    pub cooldown: Span,
}

/// The message that a target with an open circuit is answered with.
pub open spec fn open_text(target: Seq<char>) -> Seq<char> {
    "circuit open for `"@ + target + "` — failing fast until it cools down"@
}

/// The answer to a call that asks to enter: an error exactly while the circuit is open and
/// cooling.
pub open spec fn answers_entry(
    circuit: Breaker,
    target: Seq<char>,
    cooldown: Span,
    now: Moment,
    answer: Result<(), Error>,
) -> bool {
    if cooling(circuit, cooldown, now) {
        answer matches Err(Error::Unavailable(message)) && message@ == open_text(target)
    } else {
        answer is Ok
    }
}

impl<E> BreakerEndpoint<E> {
    /// Whether the inner endpoint may be invoked at `now`; else what is returned in its place.
    pub fn enter_at(&self, breakers: &Breakers, now: Moment) -> (answer: Result<(), Error>)
        ensures
            answers_entry(breakers.circuit(self.target@), self.target@, self.cooldown, now, answer),
    {
        if let Some(opened) = breakers.get(self.target.as_str()).opened_at {
            if !self.cooldown.is_over(now.since(opened)) {
                let mut message = "circuit open for `".to_owned();
                message.append(self.target.as_str());
                message.append("` — failing fast until it cools down");
                return Err(Error::Unavailable(message));
            }
        }
        Ok(())
    }

    /// Whether the inner endpoint may be invoked now; else what is returned in its place. The
    /// moment is a reading of the clock of the circuits.
    pub fn enter(&self, breakers: &Breakers) -> (answer: Result<(), Error>)
        ensures
            exists|now: Moment|
                reads(breakers.origin(), now.nanos) && #[trigger] answers_entry(
                    breakers.circuit(self.target@),
                    self.target@,
                    self.cooldown,
                    now,
                    answer,
                ),
    {
        let now = breakers.clock.now();
        self.enter_at(breakers, now)
    }

    /// Brings the circuit of the target up to date with what came of an invocation at `now`.
    pub fn settle_at<T>(&self, breakers: &mut Breakers, outcome: &Result<T, Error>, now: Moment)
        requires
            failed_transiently(*outcome) ==> old(breakers).circuit(
                self.target@,
            ).failures < u32::MAX,
        ensures
            final(breakers).origin() == old(breakers).origin(),
            final(breakers).circuit(self.target@) == settled(
                old(breakers).circuit(self.target@),
                self.threshold,
                *outcome,
                now,
            ),
            forall|other: Seq<char>|
                other != self.target@ ==> #[trigger] final(breakers).circuit(other) == old(
                    breakers,
                ).circuit(other),
    {
        match outcome {
            Ok(_) => {
                breakers.put(&self.target, Breaker { failures: 0, opened_at: None });
            },
            Err(error) => {
                if error.is_transient() {
                    let circuit = breakers.get(self.target.as_str());
                    let failures: u32 = circuit.failures + 1;
                    let opened_at = if failures >= self.threshold {
                        Some(now)
                    } else {
                        circuit.opened_at
                    };
                    breakers.put(&self.target, Breaker { failures, opened_at });
                }
            },
        }
    }

    /// Brings the circuit of the target up to date with what came of an invocation just now. The
    /// moment is a reading of the clock of the circuits.
    pub fn settle<T>(&self, breakers: &mut Breakers, outcome: &Result<T, Error>)
        requires
            failed_transiently(*outcome) ==> old(breakers).circuit(
                self.target@,
            ).failures < u32::MAX,
        ensures
            final(breakers).origin() == old(breakers).origin(),
            exists|now: Moment| #[trigger]
                reads(old(breakers).origin(), now.nanos) && final(breakers).circuit(self.target@)
                    == settled(
                    old(breakers).circuit(self.target@),
                    self.threshold,
                    *outcome,
                    now,
                ),
            forall|other: Seq<char>|
                other != self.target@ ==> #[trigger] final(breakers).circuit(other) == old(
                    breakers,
                ).circuit(other),
    {
        let now = breakers.clock.now();
        self.settle_at(breakers, outcome, now);
    }
}

/// Whether a circuit is open just when it has seen `threshold` failures or more.
pub open spec fn consistent(circuit: Breaker, threshold: u32) -> bool {
    circuit.opened_at is Some <==> circuit.failures >= threshold
}

/// Circuits stay consistent: a closed one is, and whatever comes of an invocation keeps it so.
pub proof fn law_circuits_stay_consistent<T>(
    circuit: Breaker,
    threshold: u32,
    outcome: Result<T, Error>,
    now: Moment,
)
    requires
        threshold >= 1,
        consistent(circuit, threshold),
        failed_transiently(outcome) ==> circuit.failures < u32::MAX,
    ensures
        consistent(closed_circuit(), threshold),
        consistent(settled(circuit, threshold, outcome, now), threshold),
{
}

/// A closed circuit after `outcomes`, each with the moment at which it came.
pub open spec fn circuit_after<T>(
    threshold: u32,
    outcomes: Seq<(Result<T, Error>, Moment)>,
) -> Breaker
    decreases outcomes.len(),
{
    if outcomes.len() == 0 {
        closed_circuit()
    } else {
        settled(
            circuit_after(threshold, outcomes.drop_last()),
            threshold,
            outcomes.last().0,
            outcomes.last().1,
        )
    }
}

/// How many of `outcomes` are transient failures, since the last success.
pub open spec fn streak<T>(outcomes: Seq<(Result<T, Error>, Moment)>) -> nat
    decreases outcomes.len(),
{
    if outcomes.len() == 0 || outcomes.last().0 is Ok {
        0
    } else if failed_transiently(outcomes.last().0) {
        streak(outcomes.drop_last()) + 1
    } else {
        streak(outcomes.drop_last())
    }
}

/// When the latest transient failure among `outcomes` came, where there is one.
pub open spec fn latest_failure<T>(outcomes: Seq<(Result<T, Error>, Moment)>) -> Option<Moment>
    decreases outcomes.len(),
{
    if outcomes.len() == 0 {
        None
    } else if failed_transiently(outcomes.last().0) {
        Some(outcomes.last().1)
    } else {
        latest_failure(outcomes.drop_last())
    }
}

/// Whether the count of failures never ran out of numbers.
pub open spec fn countable<T>(outcomes: Seq<(Result<T, Error>, Moment)>) -> bool {
    forall|k: int| 0 <= k <= outcomes.len() ==> streak(#[trigger] outcomes.take(k)) <= u32::MAX
}

/// A circuit trips after `threshold` consecutive transient failures, and not before: it is open
/// just when so many have come since the last success, as of the latest of them. Permanent
/// failures neither count nor break the row.
pub proof fn law_trips_at_the_threshold<T>(
    threshold: u32,
    outcomes: Seq<(Result<T, Error>, Moment)>,
)
    requires
        threshold >= 1,
        countable(outcomes),
    ensures
        circuit_after(threshold, outcomes).failures == streak(outcomes),
        streak(outcomes) > 0 ==> latest_failure(outcomes) is Some,
        circuit_after(threshold, outcomes).opened_at == if streak(outcomes) >= threshold {
            latest_failure(outcomes)
        } else {
            None
        },
    decreases outcomes.len(),
{
    assert(outcomes.take(outcomes.len() as int) =~= outcomes);
    if outcomes.len() > 0 {
        let earlier = outcomes.drop_last();
        assert forall|k: int| 0 <= k <= earlier.len() implies streak(#[trigger] earlier.take(k))
            <= u32::MAX by {
            assert(earlier.take(k) =~= outcomes.take(k));
        }
        law_trips_at_the_threshold(threshold, earlier);
    }
}

/// When a target fails fast after a history: just when `threshold` transient failures or more
/// have come since the last success, and the latest of them is less than the cooldown ago.
pub proof fn law_fails_fast_after_a_history<T>(
    threshold: u32,
    cooldown: Span,
    outcomes: Seq<(Result<T, Error>, Moment)>,
    target: Seq<char>,
    now: Moment,
    answer: Result<(), Error>,
)
    requires
        threshold >= 1,
        countable(outcomes),
        answers_entry(circuit_after(threshold, outcomes), target, cooldown, now, answer),
    ensures
        answer is Err <==> streak(outcomes) >= threshold && elapsed(
            now@,
            latest_failure(outcomes)->0@,
        ) < cooldown@,
{
    law_trips_at_the_threshold(threshold, outcomes);
}

/// An open circuit fails fast for its cooldown, and lets a probe through from then on.
pub proof fn law_open_for_the_cooldown(
    circuit: Breaker,
    cooldown: Span,
    opened: Moment,
    now: Moment,
)
    requires
        circuit.opened_at == Some(opened),
        opened@ <= now@,
    ensures
        cooling(circuit, cooldown, now) <==> now@ < opened@ + cooldown@,
{
}

/// A closed circuit lets everything through.
pub proof fn law_closed_lets_through(circuit: Breaker, cooldown: Span, now: Moment)
    requires
        circuit.opened_at is None,
    ensures
        !cooling(circuit, cooldown, now),
{
}

/// What a probe of an open circuit does: a success closes the circuit, a transient failure opens
/// it anew as of that moment, a permanent failure leaves it for the next probe.
pub proof fn law_probe<T>(
    circuit: Breaker,
    threshold: u32,
    outcome: Result<T, Error>,
    now: Moment,
)
    requires
        consistent(circuit, threshold),
        circuit.opened_at is Some,
        failed_transiently(outcome) ==> circuit.failures < u32::MAX,
    ensures
        outcome is Ok ==> settled(circuit, threshold, outcome, now) == closed_circuit(),
        failed_transiently(outcome) ==> settled(
            circuit,
            threshold,
            outcome,
            now,
        ).opened_at == Some(now),
        outcome is Err && !failed_transiently(outcome) ==> settled(
            circuit,
            threshold,
            outcome,
            now,
        ) == circuit,
{
}

/// A call to a target behind a circuit: when it asked to enter, what the dependency answers
/// where it is reached, and when that answer came.
pub struct Attempt<T> {
    /// When the call asked to enter.
    pub asked: Moment,
    /// What the dependency answers, where it is reached.
    pub outcome: Result<T, Error>,
    /// When it has answered.
    pub answered: Moment,
}

/// A circuit after one call has been served.
pub open spec fn served<T>(
    circuit: Breaker,
    threshold: u32,
    cooldown: Span,
    attempt: Attempt<T>,
) -> Breaker {
    if cooling(circuit, cooldown, attempt.asked) {
        circuit
    } else {
        settled(circuit, threshold, attempt.outcome, attempt.answered)
    }
}

/// Serving a call is this: one that may not enter leaves the circuit as it was, and what comes of
/// one that may is settled.
pub proof fn law_a_call_enters_and_is_settled<T>(
    circuit: Breaker,
    threshold: u32,
    target: Seq<char>,
    cooldown: Span,
    attempt: Attempt<T>,
    answer: Result<(), Error>,
)
    requires
        answers_entry(circuit, target, cooldown, attempt.asked, answer),
    ensures
        served(circuit, threshold, cooldown, attempt) == match answer {
            Ok(_) => settled(circuit, threshold, attempt.outcome, attempt.answered),
            Err(_) => circuit,
        },
{
}

/// A circuit after calls have been served, one after the other.
pub open spec fn served_all<T>(
    circuit: Breaker,
    threshold: u32,
    cooldown: Span,
    attempts: Seq<Attempt<T>>,
) -> Breaker
    decreases attempts.len(),
{
    if attempts.len() == 0 {
        circuit
    } else {
        served(
            served_all(circuit, threshold, cooldown, attempts.drop_last()),
            threshold,
            cooldown,
            attempts.last(),
        )
    }
}

/// How many of those calls reached the dependency.
pub open spec fn reached<T>(
    circuit: Breaker,
    threshold: u32,
    cooldown: Span,
    attempts: Seq<Attempt<T>>,
) -> nat
    decreases attempts.len(),
{
    if attempts.len() == 0 {
        0
    } else {
        let before = served_all(circuit, threshold, cooldown, attempts.drop_last());
        reached(circuit, threshold, cooldown, attempts.drop_last()) + if cooling(
            before,
            cooldown,
            attempts.last().asked,
        ) {
            0nat
        } else {
            1nat
        }
    }
}

/// What came of those of the calls that reached the dependency, and when.
pub open spec fn answers<T>(
    circuit: Breaker,
    threshold: u32,
    cooldown: Span,
    attempts: Seq<Attempt<T>>,
) -> Seq<(Result<T, Error>, Moment)>
    decreases attempts.len(),
{
    if attempts.len() == 0 {
        Seq::empty()
    } else {
        let earlier = answers(circuit, threshold, cooldown, attempts.drop_last());
        let before = served_all(circuit, threshold, cooldown, attempts.drop_last());
        if cooling(before, cooldown, attempts.last().asked) {
            earlier
        } else {
            earlier.push((attempts.last().outcome, attempts.last().answered))
        }
    }
}

/// Only what reached the dependency counts: a circuit that was closed and has served calls is
/// what the answers of the dependency make it, and there are as many of these as calls that
/// reached it.
pub proof fn law_only_what_reached_counts<T>(
    threshold: u32,
    cooldown: Span,
    attempts: Seq<Attempt<T>>,
)
    ensures
        served_all(closed_circuit(), threshold, cooldown, attempts) == circuit_after(
            threshold,
            answers(closed_circuit(), threshold, cooldown, attempts),
        ),
        answers(closed_circuit(), threshold, cooldown, attempts).len() == reached(
            closed_circuit(),
            threshold,
            cooldown,
            attempts,
        ),
    decreases attempts.len(),
{
    if attempts.len() > 0 {
        let circuit = closed_circuit();
        let earlier = attempts.drop_last();
        law_only_what_reached_counts(threshold, cooldown, earlier);
        let before = served_all(circuit, threshold, cooldown, earlier);
        if !cooling(before, cooldown, attempts.last().asked) {
            assert(answers(circuit, threshold, cooldown, attempts).drop_last() =~= answers(
                circuit,
                threshold,
                cooldown,
                earlier,
            ));
        }
    }
}

/// A dead dependency is left alone: while a circuit is open and cooling, however many calls come,
/// none reaches the dependency, and the circuit stays as it is.
pub proof fn law_dead_dependency_is_left_alone<T>(
    circuit: Breaker,
    threshold: u32,
    cooldown: Span,
    attempts: Seq<Attempt<T>>,
)
    requires
        forall|i: int|
            0 <= i < attempts.len() ==> cooling(circuit, cooldown, (#[trigger] attempts[i]).asked),
    ensures
        reached(circuit, threshold, cooldown, attempts) == 0,
        served_all(circuit, threshold, cooldown, attempts) == circuit,
    decreases attempts.len(),
{
    if attempts.len() > 0 {
        let earlier = attempts.drop_last();
        assert forall|i: int| 0 <= i < earlier.len() implies cooling(
            circuit,
            cooldown,
            (#[trigger] earlier[i]).asked,
        ) by {
            assert(earlier[i] == attempts[i]);
        }
        law_dead_dependency_is_left_alone(circuit, threshold, cooldown, earlier);
        assert(attempts.last() == attempts[attempts.len() - 1]);
    }
}

/// Failing fast is a transient failure: what rides out or fails over on those does so at once.
pub proof fn law_failing_fast_is_transient(
    circuit: Breaker,
    target: Seq<char>,
    cooldown: Span,
    now: Moment,
    answer: Result<(), Error>,
)
    requires
        answers_entry(circuit, target, cooldown, now, answer),
        answer is Err,
    ensures
        failed_transiently(answer),
{
}

} // verus!
