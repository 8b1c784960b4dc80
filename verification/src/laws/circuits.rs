//! When a circuit fails fast.

use std::time::Instant;

use vstd::prelude::*;

use crate::breaker::{
    answers_entry, settled, Breaker, BreakerEndpoint, Breakers, CircuitBreaker,
};
use crate::resource::{Error, Request, Resolution};
use crate::time::{reads, Moment, Span};

verus! {

/// What a circuit was told: by which endpoint, what came of an invocation, and when.
pub struct Telling<E, T> {
    /// The endpoint.
    pub endpoint: BreakerEndpoint<E>,
    /// What came of the invocation.
    pub outcome: Result<T, Error>,
    /// When it came.
    pub now: Moment,
}

/// Whether `target` timed out or was unavailable.
pub open spec fn failed<E, T>(telling: Telling<E, T>, target: Seq<char>) -> bool {
    &&& telling.endpoint.target@ == target
    &&& telling.outcome matches Err(error) && (error is Timeout || error is Unavailable)
}

/// Whether `target` answered.
pub open spec fn succeeded<E, T>(telling: Telling<E, T>, target: Seq<char>) -> bool {
    telling.endpoint.target@ == target && telling.outcome is Ok
}

/// The failures of `target`.
pub open spec fn failures<E, T>(tellings: Seq<Telling<E, T>>, target: Seq<char>) -> Seq<
    Telling<E, T>,
> {
    tellings.filter(|telling: Telling<E, T>| failed(telling, target))
}

/// Whether `target` has not succeeded from the telling at `from` on.
pub open spec fn unbroken<E, T>(
    tellings: Seq<Telling<E, T>>,
    target: Seq<char>,
    from: int,
) -> bool {
    forall|i: int| from <= i < tellings.len() ==> !succeeded(#[trigger] tellings[i], target)
}

/// Whether `target` has failed `threshold` times without a success in between or since.
pub open spec fn tripped<E, T>(
    tellings: Seq<Telling<E, T>>,
    target: Seq<char>,
    threshold: nat,
) -> bool {
    exists|from: int|
        0 <= from <= tellings.len() && #[trigger] unbroken(tellings, target, from) && failures(
            tellings.skip(from),
            target,
        ).len() >= threshold
}

/// Whether the endpoint fails fast at `now`, as it should: its target has tripped, and its latest
/// failure is less than the cooldown ago.
pub open spec fn fails_fast<E, T>(
    tellings: Seq<Telling<E, T>>,
    endpoint: BreakerEndpoint<E>,
    now: nat,
) -> bool {
    &&& tripped(tellings, endpoint.target@, endpoint.threshold as nat)
    &&& endpoint.cooldown@ > 0
    &&& now < failures(tellings, endpoint.target@).last().now@ + endpoint.cooldown@
}

/// How many failures of `target` have come since its last success.
spec fn row<E, T>(tellings: Seq<Telling<E, T>>, target: Seq<char>) -> nat
    decreases tellings.len(),
{
    if tellings.len() == 0 || succeeded(tellings.last(), target) {
        0
    } else if failed(tellings.last(), target) {
        row(tellings.drop_last(), target) + 1
    } else {
        row(tellings.drop_last(), target)
    }
}

/// A row is the longest run of failures without a success.
proof fn lemma_row<E, T>(tellings: Seq<Telling<E, T>>, target: Seq<char>) -> (from: int)
    ensures
        0 <= from <= tellings.len(),
        unbroken(tellings, target, from),
        failures(tellings.skip(from), target).len() == row(tellings, target),
        forall|f: int|
            0 <= f <= tellings.len() && #[trigger] unbroken(tellings, target, f) ==> failures(
                tellings.skip(f),
                target,
            ).len() <= row(tellings, target),
        row(tellings, target) <= tellings.len(),
    decreases tellings.len(),
{
    reveal(Seq::filter);
    let end = tellings.len() as int;
    assert(tellings.skip(end) =~= Seq::empty());
    if tellings.len() == 0 {
        0
    } else if succeeded(tellings.last(), target) {
        assert forall|f: int| 0 <= f <= tellings.len() && #[trigger] unbroken(
            tellings,
            target,
            f,
        ) implies failures(tellings.skip(f), target).len() == 0 by {
            if f < end {
                assert(!succeeded(tellings[end - 1], target));
            }
        }
        end
    } else {
        let earlier = tellings.drop_last();
        let from = lemma_row(earlier, target);
        assert forall|f: int| 0 <= f < tellings.len() implies failures(
            #[trigger] tellings.skip(f),
            target,
        ).len() == failures(earlier.skip(f), target).len() + (if failed(tellings.last(), target) {
            1nat
        } else {
            0
        }) by {
            assert(tellings.skip(f).drop_last() =~= earlier.skip(f));
            assert(tellings.skip(f).last() == tellings.last());
        }
        assert forall|f: int| 0 <= f <= tellings.len() && #[trigger] unbroken(
            tellings,
            target,
            f,
        ) implies failures(tellings.skip(f), target).len() <= row(tellings, target) by {
            if f < end {
                assert forall|i: int| f <= i < earlier.len() implies !succeeded(
                    #[trigger] earlier[i],
                    target,
                ) by {
                    assert(earlier[i] == tellings[i]);
                }
                assert(unbroken(earlier, target, f));
                assert(failures(tellings.skip(f), target).len() >= 0);
            }
        }
        assert forall|i: int| from <= i < tellings.len() implies !succeeded(
            #[trigger] tellings[i],
            target,
        ) by {
            if i < end - 1 {
                assert(earlier[i] == tellings[i]);
            }
        }
        assert(failures(tellings.skip(from), target).len() == row(tellings, target));
        from
    }
}

/// Whether each telling took the circuits from one state to the next.
spec fn chained<E, T>(
    threshold: u32,
    circuits: Seq<Breakers>,
    tellings: Seq<Telling<E, T>>,
) -> bool {
    &&& circuits.len() == tellings.len() + 1
    &&& forall|target: Seq<char>| #[trigger]
        circuits[0].circuit(target) == (Breaker { failures: 0, opened_at: None })
    &&& forall|i: int|
        0 <= i < tellings.len() ==> {
            let telling = #[trigger] tellings[i];
            &&& telling.endpoint.threshold == threshold
            &&& circuits[i + 1].circuit(telling.endpoint.target@) == settled(
                circuits[i].circuit(telling.endpoint.target@),
                threshold,
                telling.outcome,
                telling.now,
            )
            &&& forall|other: Seq<char>|
                other != telling.endpoint.target@ ==> #[trigger] circuits[i + 1].circuit(other)
                    == circuits[i].circuit(other)
        }
}

/// A circuit counts the failures since the last success, and is open as of the latest once there
/// are enough of them.
proof fn lemma_circuit<E, T>(
    threshold: u32,
    circuits: Seq<Breakers>,
    tellings: Seq<Telling<E, T>>,
    target: Seq<char>,
    n: int,
)
    requires
        threshold >= 1,
        chained(threshold, circuits, tellings),
        0 <= n <= tellings.len() <= u32::MAX,
    ensures
        ({
            let so_far = tellings.take(n);
            &&& circuits[n].circuit(target).failures == row(so_far, target)
            &&& row(so_far, target) > 0 ==> failures(so_far, target).len() > 0
            &&& circuits[n].circuit(target).opened_at == if row(so_far, target) >= threshold {
                Some(failures(so_far, target).last().now)
            } else {
                None
            }
        }),
    decreases n,
{
    reveal(Seq::filter);
    if n > 0 {
        lemma_circuit(threshold, circuits, tellings, target, n - 1);
        let telling = tellings[n - 1];
        let earlier = tellings.take(n - 1);
        assert(tellings.take(n).drop_last() =~= earlier);
        assert(tellings.take(n).last() == telling);
        lemma_row(earlier, target);
        if telling.endpoint.target@ != target {
            assert(circuits[n - 1 + 1].circuit(target) == circuits[n - 1].circuit(target));
        }
    }
}

/// An endpoint that asks to enter after the tellings is answered by them.
proof fn lemma_answer<E, T>(
    circuits: Seq<Breakers>,
    tellings: Seq<Telling<E, T>>,
    endpoint: BreakerEndpoint<E>,
    now: Moment,
    answer: Result<(), Error>,
)
    requires
        endpoint.threshold >= 1,
        chained(endpoint.threshold, circuits, tellings),
        tellings.len() <= u32::MAX,
        answers_entry(
            circuits.last().circuit(endpoint.target@),
            endpoint.target@,
            endpoint.cooldown,
            now,
            answer,
        ),
    ensures
        answer is Err <==> fails_fast(tellings, endpoint, now@),
{
    let target = endpoint.target@;
    lemma_circuit(endpoint.threshold, circuits, tellings, target, tellings.len() as int);
    assert(tellings.take(tellings.len() as int) =~= tellings);
    let from = lemma_row(tellings, target);
    assert(tripped(tellings, target, endpoint.threshold as nat) <==> row(tellings, target)
        >= endpoint.threshold);
}

/// A circuit is decided by what came of the invocations of its target, and by nothing else:
/// whatever new circuits are told, of whatever targets, an endpoint fails fast just when its
/// target failed as often as trips it without a success since, and the latest of these failures
/// is less than the cooldown ago.
pub proof fn law_fails_fast_by_what_came_of_the_target<E, T>(
    circuits: Seq<Breakers>,
    tellings: Seq<Telling<E, T>>,
    endpoint: BreakerEndpoint<E>,
    now: Moment,
    answer: Result<(), Error>,
)
    requires
        endpoint.threshold >= 1,
        tellings.len() <= u32::MAX,
        circuits.len() == tellings.len() + 1,
        call_ensures(Breakers::new, (), circuits[0]),
        forall|i: int|
            #![trigger tellings[i]]
            0 <= i < tellings.len() ==> tellings[i].endpoint.threshold == endpoint.threshold
                && exists|breakers: &mut Breakers|
                *breakers == circuits[i] && *final(breakers) == circuits[i + 1]
                    && #[trigger] call_ensures(
                    BreakerEndpoint::<E>::settle_at::<T>,
                    (&tellings[i].endpoint, breakers, &tellings[i].outcome, tellings[i].now),
                    (),
                ),
        call_ensures(BreakerEndpoint::<E>::enter_at, (&endpoint, &circuits.last(), now), answer),
    ensures
        answer is Err <==> fails_fast(tellings, endpoint, now@),
{
    lemma_answer(circuits, tellings, endpoint, now, answer);
}

/// Whether `timed` are the `tellings`, each at a reading of the clock that counts from `origin`.
pub open spec fn timed_by<E, T>(
    origin: Instant,
    tellings: Seq<Telling<E, T>>,
    timed: Seq<Telling<E, T>>,
) -> bool {
    &&& timed.len() == tellings.len()
    &&& forall|i: int|
        0 <= i < tellings.len() ==> {
            &&& (#[trigger] timed[i]).endpoint == tellings[i].endpoint
            &&& timed[i].outcome == tellings[i].outcome
            &&& reads(origin, timed[i].now.nanos)
        }
}

/// A clock that is kept from one state to the next is the clock of the first.
proof fn lemma_one_clock(circuits: Seq<Breakers>, n: int)
    requires
        0 <= n < circuits.len(),
        forall|i: int|
            #![trigger circuits[i]]
            0 <= i < circuits.len() - 1 ==> circuits[i + 1].origin() == circuits[i].origin(),
    ensures
        circuits[n].origin() == circuits[0].origin(),
    decreases n,
{
    if n > 0 {
        lemma_one_clock(circuits, n - 1);
        assert(circuits[n - 1 + 1].origin() == circuits[n - 1].origin());
    }
}

/// Circuits that are not told the time take it from their own clock, in nanoseconds: the moment as
/// of which each telling opens a circuit and the moment at which an endpoint asks to enter are
/// readings of that one clock, and by these readings it fails fast just when its target failed as
/// often as trips it without a success since, and the latest of these failures is less than the
/// cooldown ago. So a call whose reading lies less than the cooldown after the failure that
/// tripped the circuit fails fast, and one whose reading lies the cooldown or more after it enters.
pub proof fn law_fails_fast_by_the_clock_of_the_circuits<E, T>(
    circuits: Seq<Breakers>,
    tellings: Seq<Telling<E, T>>,
    endpoint: BreakerEndpoint<E>,
    answer: Result<(), Error>,
)
    requires
        endpoint.threshold >= 1,
        tellings.len() <= u32::MAX,
        circuits.len() == tellings.len() + 1,
        call_ensures(Breakers::new, (), circuits[0]),
        forall|i: int|
            #![trigger tellings[i]]
            0 <= i < tellings.len() ==> tellings[i].endpoint.threshold == endpoint.threshold
                && exists|breakers: &mut Breakers|
                *breakers == circuits[i] && *final(breakers) == circuits[i + 1]
                    && #[trigger] call_ensures(
                    BreakerEndpoint::<E>::settle::<T>,
                    (&tellings[i].endpoint, breakers, &tellings[i].outcome),
                    (),
                ),
        call_ensures(BreakerEndpoint::<E>::enter, (&endpoint, &circuits.last()), answer),
    ensures
        exists|timed: Seq<Telling<E, T>>, now: u128|
            #![trigger timed_by(circuits[0].origin(), tellings, timed), reads(
                circuits[0].origin(),
                now,
            )]
            timed_by(circuits[0].origin(), tellings, timed) && reads(circuits[0].origin(), now) && (
            answer is Err <==> fails_fast(timed, endpoint, now as nat)),
{
    let threshold = endpoint.threshold;
    let timed = Seq::new(
        tellings.len(),
        |i: int|
            Telling {
                now: choose|now: Moment| #[trigger]
                    reads(circuits[i].origin(), now.nanos) && circuits[i + 1].circuit(
                        tellings[i].endpoint.target@,
                    ) == settled(
                        circuits[i].circuit(tellings[i].endpoint.target@),
                        threshold,
                        tellings[i].outcome,
                        now,
                    ),
                ..tellings[i]
            },
    );
    assert forall|i: int|
        #![trigger circuits[i]]
        0 <= i < circuits.len() - 1 implies circuits[i + 1].origin() == circuits[i].origin() by {
        assert(timed[i].endpoint == tellings[i].endpoint);
    }
    assert forall|i: int| 0 <= i < tellings.len() implies {
        &&& reads(circuits[0].origin(), (#[trigger] timed[i]).now.nanos)
        &&& circuits[i + 1].circuit(timed[i].endpoint.target@) == settled(
            circuits[i].circuit(timed[i].endpoint.target@),
            threshold,
            timed[i].outcome,
            timed[i].now,
        )
    } by {
        lemma_one_clock(circuits, i);
    }
    assert(timed_by(circuits[0].origin(), tellings, timed));
    assert(chained(threshold, circuits, timed));
    lemma_one_clock(circuits, circuits.len() - 1);
    let now = choose|now: Moment|
        reads(circuits.last().origin(), now.nanos) && #[trigger] answers_entry(
            circuits.last().circuit(endpoint.target@),
            endpoint.target@,
            endpoint.cooldown,
            now,
            answer,
        );
    lemma_answer(circuits, timed, endpoint, now, answer);
    assert(reads(circuits[0].origin(), now.nanos));
}

/// What an endpoint that fails fast answers: that its target is unavailable, which names the target
/// and says why.
pub proof fn law_failing_fast_names_the_target<E>(
    endpoint: BreakerEndpoint<E>,
    breakers: Breakers,
    now: Moment,
    error: Error,
)
    requires
        call_ensures(BreakerEndpoint::<E>::enter_at, (&endpoint, &breakers, now), Err(error))
            || call_ensures(BreakerEndpoint::<E>::enter, (&endpoint, &breakers), Err(error)),
    ensures
        error matches Error::Unavailable(message) && message@ == "circuit open for `"@
            + endpoint.target@ + "` — failing fast until it cools down"@,
{
}

/// An endpoint behind a circuit is the one that the wrapped space resolved to, behind the circuit
/// of the requested target, with the threshold and the cooldown that the overlay was made with; a
/// threshold of none is one. A miss stays a miss, and the wrapped space is the one that was given.
pub proof fn law_put_behind_the_circuit_of_its_target<S, E, B>(
    space: S,
    threshold: u32,
    cooldown: Span,
    overlay: CircuitBreaker<S>,
    wrapped: &S,
    request: Request,
    inner: Resolution<E, B>,
    resolution: Resolution<BreakerEndpoint<E>, B>,
)
    requires
        call_ensures(CircuitBreaker::<S>::new, (space, threshold, cooldown), overlay),
        call_ensures(CircuitBreaker::<S>::inner, (&overlay,), wrapped),
        call_ensures(
            CircuitBreaker::<S>::resolve::<E, B>,
            (&overlay, &request, inner),
            resolution,
        ),
    ensures
        *wrapped == space,
        match inner {
            Resolution::Miss => resolution is Miss,
            Resolution::Hit(hit) => {
                &&& resolution matches Resolution::Hit(resolved)
                &&& resolved.bindings == hit.bindings
                &&& resolved.endpoint.inner == hit.endpoint
                &&& resolved.endpoint.target@ == request.target@
                &&& resolved.endpoint.cooldown == cooldown
                &&& resolved.endpoint.threshold >= 1
                &&& threshold >= 1 ==> resolved.endpoint.threshold == threshold
                &&& threshold == 0 ==> resolved.endpoint.threshold == 1
            },
        },
{
}

/// What is told of a circuit is what came of its target: after the tellings it counts the failures
/// since the last success, and is open just where these trip it, as of the latest of them.
pub proof fn law_a_circuit_shows_what_came_of_its_target<E, T>(
    threshold: u32,
    circuits: Seq<Breakers>,
    tellings: Seq<Telling<E, T>>,
    target: &str,
    circuit: Breaker,
    from: int,
)
    requires
        threshold >= 1,
        tellings.len() <= u32::MAX,
        circuits.len() == tellings.len() + 1,
        call_ensures(Breakers::new, (), circuits[0]),
        forall|i: int|
            #![trigger tellings[i]]
            0 <= i < tellings.len() ==> tellings[i].endpoint.threshold == threshold
                && exists|breakers: &mut Breakers|
                *breakers == circuits[i] && *final(breakers) == circuits[i + 1]
                    && #[trigger] call_ensures(
                    BreakerEndpoint::<E>::settle_at::<T>,
                    (&tellings[i].endpoint, breakers, &tellings[i].outcome, tellings[i].now),
                    (),
                ),
        call_ensures(Breakers::get, (&circuits.last(), target), circuit),
        0 <= from <= tellings.len(),
        from == 0 || succeeded(tellings[from - 1], target@),
        unbroken(tellings, target@, from),
    ensures
        circuit.failures == failures(tellings.skip(from), target@).len(),
        circuit.opened_at == if circuit.failures >= threshold {
            Some(failures(tellings, target@).last().now)
        } else {
            None
        },
{
    lemma_circuit(threshold, circuits, tellings, target@, tellings.len() as int);
    assert(tellings.take(tellings.len() as int) =~= tellings);
    lemma_row_since(tellings, target@, from);
}

/// A row is the failures since the last success.
proof fn lemma_row_since<E, T>(tellings: Seq<Telling<E, T>>, target: Seq<char>, from: int)
    requires
        0 <= from <= tellings.len(),
        from == 0 || succeeded(tellings[from - 1], target),
        unbroken(tellings, target, from),
    ensures
        failures(tellings.skip(from), target).len() == row(tellings, target),
    decreases tellings.len(),
{
    reveal(Seq::filter);
    if from < tellings.len() {
        let earlier = tellings.drop_last();
        assert forall|i: int| from <= i < earlier.len() implies !succeeded(
            #[trigger] earlier[i],
            target,
        ) by {
            assert(earlier[i] == tellings[i]);
        }
        lemma_row_since(earlier, target, from);
        assert(tellings.skip(from).drop_last() =~= earlier.skip(from));
        assert(!succeeded(tellings[tellings.len() - 1], target));
    } else {
        assert(tellings.skip(from) =~= Seq::empty());
    }
}

} // verus!
