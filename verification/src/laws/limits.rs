//! How often a limit lets resolutions through.

use std::time::Instant;

use vstd::prelude::*;

use crate::hits::Hits;
use crate::laws::prefixes::{lemma_starts, starts};
use crate::rate_limit::{
    counts, law_memory_follows_the_calls, law_refused_just_when_the_budget_is_spent, let_through,
    recorded_after, resolves, Call, RateLimit, Routed,
};
use crate::resource::{Request, Resolution, Resolved, Verb};
use crate::rules::{law_longest_prefix_wins, lemma_rule_for, longest_first, rule_for, Rule};
use crate::time::{reads, Moment};
use crate::window::{expired, lemma_live_is_a_suffix, live, Rate};

verus! {

/// A call of a limiter: what it was asked, when, and what it answered.
pub struct Asking<E, B> {
    /// The request.
    pub request: Request,
    /// What the wrapped space resolved it to.
    pub inner: Resolution<E, B>,
    /// When it was made.
    pub now: Moment,
    /// What it resolved to.
    pub resolution: Resolution<Routed<E>, B>,
}

/// Whether a call was answered with an endpoint of the wrapped space.
pub open spec fn passed<E, B>(asking: Asking<E, B>) -> bool {
    asking.resolution matches Resolution::Hit(hit) && hit.endpoint is Through
}

/// Whether a target starts with `prefix`, and with no longer one that is limited.
pub open spec fn closest(limits: Seq<Rule>, prefix: Seq<char>, target: Seq<char>) -> bool {
    &&& starts(target, prefix)
    &&& forall|i: int|
        0 <= i < limits.len() && starts(target, #[trigger] limits[i].0) ==> limits[i].0.len()
            <= prefix.len()
}

/// Whether a call draws on the budget of `prefix`.
pub open spec fn draws<E, B>(limits: Seq<Rule>, prefix: Seq<char>, asking: Asking<E, B>) -> bool {
    &&& asking.inner is Hit
    &&& asking.request.verb != Verb::Meta
    &&& closest(limits, prefix, asking.request.target@)
}

/// Those of the `earlier` calls that drew on the budget of `prefix`, passed, and lie less than
/// `window` before `now`.
pub open spec fn lately<E, B>(
    limits: Seq<Rule>,
    prefix: Seq<char>,
    window: nat,
    earlier: Seq<Asking<E, B>>,
    now: nat,
) -> Seq<Asking<E, B>> {
    earlier.filter(
        |asking: Asking<E, B>|
            draws(limits, prefix, asking) && passed(asking) && now < asking.now@ + window,
    )
}

/// Whether a hit under the limit `rule` was answered as it should be, where `late` passed lately:
/// it passes while these are fewer than the most that may, and else is told the prefix, its rate,
/// and the wait until the oldest of them is a whole window ago.
pub open spec fn answered<E, B>(
    rule: Rule,
    late: Seq<Asking<E, B>>,
    hit: Resolved<E, B>,
    now: nat,
    endpoint: Routed<E>,
) -> bool {
    if late.len() < rule.1.max {
        endpoint == Routed::Through(hit.endpoint)
    } else {
        &&& endpoint matches Routed::Limited(over)
        &&& over.prefix@ == rule.0
        &&& over.rate == rule.1
        &&& if late.len() == 0 {
            over.retry@ == rule.1.window@
        } else {
            now + over.retry@ == late[0].now@ + rule.1.window@
        }
    }
}

/// Whether a call was answered as it should be after the `earlier` ones. A miss stays a miss, and
/// a hit keeps its bindings. It passes where it asks for a self-description, or where its target
/// starts with nothing that is limited; else the limit with the longest prefix that the target
/// starts with decides, the first where there are several.
pub open spec fn fair<E, B>(
    limits: Seq<Rule>,
    earlier: Seq<Asking<E, B>>,
    asking: Asking<E, B>,
) -> bool {
    let target = asking.request.target@;
    match asking.inner {
        Resolution::Miss => asking.resolution is Miss,
        Resolution::Hit(hit) => {
            &&& asking.resolution matches Resolution::Hit(resolved)
            &&& resolved.bindings == hit.bindings
            &&& asking.request.verb == Verb::Meta || (forall|i: int|
                0 <= i < limits.len() ==> !starts(target, #[trigger] limits[i].0))
                ==> resolved.endpoint == Routed::Through(hit.endpoint)
            &&& asking.request.verb != Verb::Meta ==> forall|at: int|
                0 <= at < limits.len() && closest(limits, (#[trigger] limits[at]).0, target) && (
                forall|i: int| 0 <= i < at ==> (#[trigger] limits[i]).0 != limits[at].0)
                    ==> answered(
                    limits[at],
                    lately(limits, limits[at].0, limits[at].1.window@, earlier, asking.now@),
                    hit,
                    asking.now@,
                    resolved.endpoint,
                )
        },
    }
}

/// The call, as plain data.
spec fn call_of<E, B>(asking: Asking<E, B>) -> Call {
    Call {
        verb: asking.request.verb,
        target: asking.request.target@,
        hit: asking.inner is Hit,
        now: asking.now@,
    }
}

/// The calls, as plain data.
spec fn calls_of<E, B>(askings: Seq<Asking<E, B>>) -> Seq<Call> {
    askings.map_values(|asking: Asking<E, B>| call_of(asking))
}

/// When the calls were made.
spec fn times_of<E, B>(askings: Seq<Asking<E, B>>) -> Seq<nat> {
    askings.map_values(|asking: Asking<E, B>| asking.now@)
}

/// Those of the calls that drew on the budget of `prefix` and passed.
spec fn through<E, B>(
    limits: Seq<Rule>,
    prefix: Seq<char>,
    askings: Seq<Asking<E, B>>,
) -> Seq<Asking<E, B>> {
    askings.filter(|asking: Asking<E, B>| draws(limits, prefix, asking) && passed(asking))
}

/// Whether each of the calls took the memory from one state to the next.
spec fn chained<E, B>(
    limits: Seq<Rule>,
    memories: Seq<Hits>,
    askings: Seq<Asking<E, B>>,
) -> bool {
    &&& memories.len() == askings.len() + 1
    &&& forall|prefix: Seq<char>| #[trigger]
        memories[0].recorded(prefix) == Seq::<nat>::empty()
    &&& forall|i: int|
        0 <= i < askings.len() ==> resolves(
            limits,
            memories[i],
            (#[trigger] askings[i]).request,
            askings[i].inner,
            askings[i].now@,
            memories[i + 1],
            askings[i].resolution,
        )
}

/// Whether the calls were made one after the other.
pub open spec fn one_after_the_other<E, B>(askings: Seq<Asking<E, B>>) -> bool {
    forall|i: int, j: int|
        0 <= i <= j < askings.len() ==> (#[trigger] askings[i]).now@ <= (#[trigger] askings[j]).now@
}

/// A call counts toward a limited prefix just when it draws on its budget.
proof fn lemma_draws<E, B>(limits: Seq<Rule>, at: int, asking: Asking<E, B>)
    requires
        longest_first(limits),
        0 <= at < limits.len(),
    ensures
        counts(limits, call_of(asking), limits[at].0) <==> draws(limits, limits[at].0, asking),
{
    let target = asking.request.target@;
    let prefix = limits[at].0;
    law_longest_prefix_wins(limits, target);
    assert forall|i: int| 0 <= i < limits.len() implies (starts(target, #[trigger] limits[i].0)
        <==> limits[i].0.is_prefix_of(target)) by {
        lemma_starts(target, limits[i].0);
    }
    if rule_for(limits, target) is Some {
        let rule = rule_for(limits, target).unwrap();
        let found = choose|i: int| 0 <= i < limits.len() && limits[i] == rule;
        assert(limits[found] == rule);
        if closest(limits, prefix, target) {
            assert(prefix =~= rule.0);
        }
    }
}

/// After the calls the memory holds what they make it hold, and what was let through under a
/// limited prefix are those that drew on its budget and passed.
proof fn lemma_history<E, B>(
    limits: Seq<Rule>,
    memories: Seq<Hits>,
    askings: Seq<Asking<E, B>>,
    n: int,
)
    requires
        longest_first(limits),
        chained(limits, memories, askings),
        0 <= n <= askings.len(),
    ensures
        forall|prefix: Seq<char>| #[trigger]
            memories[n].recorded(prefix) == recorded_after(
                limits,
                calls_of(askings.take(n)),
                prefix,
            ),
        forall|at: int|
            0 <= at < limits.len() ==> let_through(
                limits,
                calls_of(askings.take(n)),
                (#[trigger] limits[at]).0,
            ) == times_of(through(limits, limits[at].0, askings.take(n))),
    decreases n,
{
    reveal(Seq::filter);
    if n > 0 {
        let asking = askings[n - 1];
        let earlier = askings.take(n - 1);
        let all = askings.take(n);
        lemma_history(limits, memories, askings, n - 1);
        law_memory_follows_the_calls(
            limits,
            calls_of(earlier),
            memories[n - 1],
            asking.request,
            asking.inner,
            asking.now@,
            memories[n],
            asking.resolution,
        );
        assert(calls_of(all) =~= calls_of(earlier).push(call_of(asking)));
        assert(all.drop_last() =~= earlier);
        assert forall|at: int| 0 <= at < limits.len() implies let_through(
            limits,
            calls_of(all),
            (#[trigger] limits[at]).0,
        ) == times_of(through(limits, limits[at].0, all)) by {
            let prefix = limits[at].0;
            lemma_draws(limits, at, asking);
            if draws(limits, prefix, asking) && passed(asking) {
                assert(through(limits, prefix, all) == through(limits, prefix, earlier).push(
                    asking,
                ));
                assert(times_of(through(limits, prefix, all)) =~= times_of(
                    through(limits, prefix, earlier),
                ).push(asking.now@));
            } else {
                assert(through(limits, prefix, all) == through(limits, prefix, earlier));
            }
        }
    } else {
        assert(askings.take(0).len() == 0);
        assert forall|at: int| 0 <= at < limits.len() implies let_through(
            limits,
            calls_of(askings.take(0)),
            (#[trigger] limits[at]).0,
        ) == times_of(through(limits, limits[at].0, askings.take(0))) by {
            assert(times_of(through(limits, limits[at].0, askings.take(0))) =~= Seq::empty());
        }
    }
}

/// What has not expired of what passed is what passed lately.
proof fn lemma_lately<E, B>(
    limits: Seq<Rule>,
    prefix: Seq<char>,
    window: nat,
    earlier: Seq<Asking<E, B>>,
    now: nat,
)
    requires
        forall|i: int| 0 <= i < earlier.len() ==> (#[trigger] earlier[i]).now@ <= now,
    ensures
        times_of(through(limits, prefix, earlier)).filter(|hit: nat| !expired(hit, now, window))
            == times_of(lately(limits, prefix, window, earlier, now)),
    decreases earlier.len(),
{
    reveal(Seq::filter);
    let left = |hit: nat| !expired(hit, now, window);
    let late = lately(limits, prefix, window, earlier, now);
    let all = times_of(through(limits, prefix, earlier));
    if earlier.len() > 0 {
        let rest = earlier.drop_last();
        let asking = earlier.last();
        assert(asking == earlier[earlier.len() - 1]);
        assert forall|i: int| 0 <= i < rest.len() implies (#[trigger] rest[i]).now@ <= now by {
            assert(rest[i] == earlier[i]);
        }
        lemma_lately(limits, prefix, window, rest, now);
        let before = times_of(through(limits, prefix, rest));
        if draws(limits, prefix, asking) && passed(asking) {
            assert(through(limits, prefix, earlier) == through(limits, prefix, rest).push(asking));
            assert(all =~= before.push(asking.now@));
            assert(all.drop_last() =~= before);
            if now < asking.now@ + window {
                assert(late == lately(limits, prefix, window, rest, now).push(asking));
                assert(times_of(late) =~= times_of(
                    lately(limits, prefix, window, rest, now),
                ).push(asking.now@));
            } else {
                assert(late == lately(limits, prefix, window, rest, now));
            }
        } else {
            assert(through(limits, prefix, earlier) == through(limits, prefix, rest));
            assert(late == lately(limits, prefix, window, rest, now));
        }
    } else {
        assert(all =~= Seq::empty());
        assert(all.filter(left) =~= times_of(late));
    }
}

/// The calls of a history are answered as they should be.
proof fn lemma_fair<E, B>(
    limits: Seq<Rule>,
    memories: Seq<Hits>,
    askings: Seq<Asking<E, B>>,
    k: int,
)
    requires
        longest_first(limits),
        chained(limits, memories, askings),
        one_after_the_other(askings),
        0 <= k < askings.len(),
    ensures
        fair(limits, askings.take(k), askings[k]),
{
    let asking = askings[k];
    let target = asking.request.target@;
    let earlier = askings.take(k);
    lemma_history(limits, memories, askings, k);
    law_longest_prefix_wins(limits, target);
    assert forall|i: int| 0 <= i < limits.len() implies (starts(target, #[trigger] limits[i].0)
        <==> limits[i].0.is_prefix_of(target)) by {
        lemma_starts(target, limits[i].0);
    }
    if asking.inner is Hit && asking.request.verb != Verb::Meta {
        let hit = asking.inner->Hit_0;
        let endpoint = asking.resolution->Hit_0.endpoint;
        assert forall|at: int|
            0 <= at < limits.len() && closest(limits, (#[trigger] limits[at]).0, target) && (
            forall|i: int|
                0 <= i < at ==> (#[trigger] limits[i]).0 != limits[at].0) implies answered(
            limits[at],
            lately(limits, limits[at].0, limits[at].1.window@, earlier, asking.now@),
            hit,
            asking.now@,
            endpoint,
        ) by {
            let rule = limits[at];
            lemma_draws(limits, at, asking);
            let found = lemma_rule_for(limits, target);
            assert(found == at);
            let calls = calls_of(earlier);
            let more = calls.push(call_of(asking));
            assert forall|i: int, j: int| 0 <= i <= j < more.len() implies (#[trigger] more[i]).now
                <= (#[trigger] more[j]).now by {
                assert(askings[i].now@ <= askings[j].now@);
            }
            assert forall|i: int| 0 <= i < earlier.len() implies (#[trigger] earlier[i]).now@
                <= asking.now@ by {
                assert(askings[i].now@ <= askings[k].now@);
            }
            law_refused_just_when_the_budget_is_spent(limits, calls, call_of(asking), rule);
            lemma_lately(limits, rule.0, rule.1.window@, earlier, asking.now@);
            let late = lately(limits, rule.0, rule.1.window@, earlier, asking.now@);
            assert(times_of(late).len() == late.len());
            if late.len() > 0 {
                assert(times_of(late)[0] == late[0].now@);
            }
        }
    }
}

/// A limiter decides by what passed lately, and by nothing else: whatever is asked of a new
/// memory, one call after the other, each call is answered as [`fair`] says, by what came of the
/// calls before it.
pub proof fn law_limited_by_what_passed_lately<S, E, B>(
    overlay: RateLimit<S>,
    memories: Seq<Hits>,
    askings: Seq<Asking<E, B>>,
    k: int,
)
    requires
        overlay.wf(),
        memories.len() == askings.len() + 1,
        call_ensures(Hits::new, (), memories[0]),
        forall|i: int|
            #![trigger askings[i]]
            0 <= i < askings.len() ==> exists|memory: &mut Hits|
                *memory == memories[i] && *final(memory) == memories[i + 1]
                    && #[trigger] call_ensures(
                    RateLimit::<S>::resolve_at::<E, B>,
                    (&overlay, memory, &askings[i].request, askings[i].inner, askings[i].now),
                    askings[i].resolution,
                ),
        one_after_the_other(askings),
        0 <= k < askings.len(),
    ensures
        fair(overlay.rules(), askings.take(k), askings[k]),
{
    lemma_fair(overlay.rules(), memories, askings, k);
}

/// Whether `timed` are the calls `askings`, each at a reading of the clock that counts from
/// `origin`.
pub open spec fn timed_by<E, B>(
    origin: Instant,
    askings: Seq<Asking<E, B>>,
    timed: Seq<Asking<E, B>>,
) -> bool {
    &&& timed.len() == askings.len()
    &&& forall|i: int|
        0 <= i < askings.len() ==> {
            &&& (#[trigger] timed[i]).request == askings[i].request
            &&& timed[i].inner == askings[i].inner
            &&& timed[i].resolution == askings[i].resolution
            &&& reads(origin, timed[i].now.nanos)
        }
}

/// A clock that is kept from one state to the next is the clock of the first.
proof fn lemma_one_clock(memories: Seq<Hits>, n: int)
    requires
        0 <= n < memories.len(),
        forall|i: int|
            #![trigger memories[i]]
            0 <= i < memories.len() - 1 ==> memories[i + 1].origin() == memories[i].origin(),
    ensures
        memories[n].origin() == memories[0].origin(),
    decreases n,
{
    if n > 0 {
        lemma_one_clock(memories, n - 1);
        assert(memories[n - 1 + 1].origin() == memories[n - 1].origin());
    }
}

/// A limiter that is not told the time takes it from the clock of its memory, in nanoseconds: the
/// moment of every call is a reading of that one clock, and by these moments, where they come one
/// after the other, each call is answered as [`fair`] says. So what one call let through is
/// nothing to a call whose reading is a whole window later or more.
pub proof fn law_limited_by_the_clock_of_the_memory<S, E, B>(
    overlay: RateLimit<S>,
    memories: Seq<Hits>,
    askings: Seq<Asking<E, B>>,
)
    requires
        overlay.wf(),
        memories.len() == askings.len() + 1,
        call_ensures(Hits::new, (), memories[0]),
        forall|i: int|
            #![trigger askings[i]]
            0 <= i < askings.len() ==> exists|memory: &mut Hits|
                *memory == memories[i] && *final(memory) == memories[i + 1]
                    && #[trigger] call_ensures(
                    RateLimit::<S>::resolve::<E, B>,
                    (&overlay, memory, &askings[i].request, askings[i].inner),
                    askings[i].resolution,
                ),
    ensures
        exists|timed: Seq<Asking<E, B>>| #[trigger]
            timed_by(memories[0].origin(), askings, timed) && (one_after_the_other(timed)
                ==> forall|k: int|
                0 <= k < timed.len() ==> fair(
                    overlay.rules(),
                    timed.take(k),
                    #[trigger] timed[k],
                )),
{
    let limits = overlay.rules();
    let timed = Seq::new(
        askings.len(),
        |i: int|
            Asking {
                now: Moment {
                    nanos: choose|now: u128| #[trigger]
                        reads(memories[i].origin(), now) && resolves(
                            limits,
                            memories[i],
                            askings[i].request,
                            askings[i].inner,
                            now as nat,
                            memories[i + 1],
                            askings[i].resolution,
                        ),
                },
                ..askings[i]
            },
    );
    assert forall|i: int|
        #![trigger memories[i]]
        0 <= i < memories.len() - 1 implies memories[i + 1].origin() == memories[i].origin() by {
        assert(timed[i].request == askings[i].request);
    }
    assert forall|i: int| 0 <= i < askings.len() implies {
        &&& reads(memories[0].origin(), (#[trigger] timed[i]).now.nanos)
        &&& resolves(
            limits,
            memories[i],
            timed[i].request,
            timed[i].inner,
            timed[i].now@,
            memories[i + 1],
            timed[i].resolution,
        )
    } by {
        lemma_one_clock(memories, i);
    }
    assert(timed_by(memories[0].origin(), askings, timed));
    assert(chained(limits, memories, timed));
    if one_after_the_other(timed) {
        assert forall|k: int| 0 <= k < timed.len() implies fair(
            limits,
            timed.take(k),
            #[trigger] timed[k],
        ) by {
            lemma_fair(limits, memories, timed, k);
        }
    }
}

/// A request for a self-description is never limited and costs nothing, whatever the limits are,
/// whatever was let through before, and whenever it is made: a hit passes, and what is recorded
/// for each prefix stays.
pub proof fn law_meta_is_never_limited<S, E, B>(
    overlay: RateLimit<S>,
    hits: &mut Hits,
    request: Request,
    inner: Resolution<E, B>,
    now: Moment,
    resolution: Resolution<Routed<E>, B>,
    prefix: Seq<char>,
)
    requires
        request.verb == Verb::Meta,
        call_ensures(
            RateLimit::<S>::resolve_at::<E, B>,
            (&overlay, hits, &request, inner, now),
            resolution,
        ) || call_ensures(
            RateLimit::<S>::resolve::<E, B>,
            (&overlay, hits, &request, inner),
            resolution,
        ),
    ensures
        match inner {
            Resolution::Hit(hit) => resolution == Resolution::Hit(
                Resolved { endpoint: Routed::Through(hit.endpoint), bindings: hit.bindings },
            ),
            Resolution::Miss => resolution is Miss,
        },
        final(hits).recorded(prefix) == old(hits).recorded(prefix),
{
}

/// No other verb is favoured: two requests that differ in their verb alone, neither of them for a
/// self-description, are answered alike by one memory at one moment, and leave the same recorded.
pub proof fn law_every_other_verb_is_limited_alike<S, E, B>(
    overlay: RateLimit<S>,
    one: &mut Hits,
    other: &mut Hits,
    request: Request,
    again: Request,
    inner: Resolution<E, B>,
    now: Moment,
    resolution: Resolution<Routed<E>, B>,
    reply: Resolution<Routed<E>, B>,
    prefix: Seq<char>,
)
    requires
        request.verb != Verb::Meta,
        again.verb != Verb::Meta,
        request.target@ == again.target@,
        *old(one) == *old(other),
        call_ensures(
            RateLimit::<S>::resolve_at::<E, B>,
            (&overlay, one, &request, inner, now),
            resolution,
        ),
        call_ensures(
            RateLimit::<S>::resolve_at::<E, B>,
            (&overlay, other, &again, inner, now),
            reply,
        ),
    ensures
        final(one).recorded(prefix) == final(other).recorded(prefix),
        match resolution {
            Resolution::Miss => reply is Miss,
            Resolution::Hit(hit) => {
                &&& reply matches Resolution::Hit(same)
                &&& same.bindings == hit.bindings
                &&& match hit.endpoint {
                    Routed::Through(endpoint) => same.endpoint == Routed::Through(endpoint),
                    Routed::Limited(over) => {
                        &&& same.endpoint matches Routed::Limited(alike)
                        &&& alike.prefix@ == over.prefix@
                        &&& alike.rate == over.rate
                        &&& alike.retry@ == over.retry@
                    },
                }
            },
        },
{
}

/// What one call does to any memory, at any moment, later or earlier than what is recorded. Of the
/// moments recorded for the prefix that governs it, those at the front that are a whole window ago
/// are forgotten, up to the first that is not. The call passes, and is recorded, just when fewer
/// are left than may be; else nothing is recorded, and the wait that is told is until the oldest
/// left is a whole window ago, but never more than a window. No other prefix is touched.
pub proof fn law_one_call_at_any_moment<S, E, B>(
    overlay: RateLimit<S>,
    hits: &mut Hits,
    request: Request,
    hit: Resolved<E, B>,
    now: Moment,
    resolution: Resolution<Routed<E>, B>,
    target: &str,
    rule: &(String, Rate),
    other: Seq<char>,
) -> (gone: int)
    requires
        request.verb != Verb::Meta,
        target@ == request.target@,
        call_ensures(RateLimit::<S>::rule_for, (&overlay, target), Some(rule)),
        call_ensures(
            RateLimit::<S>::resolve_at::<E, B>,
            (&overlay, hits, &request, Resolution::Hit(hit), now),
            resolution,
        ),
    ensures
        ({
            let before = old(hits).recorded(rule.0@);
            let after = final(hits).recorded(rule.0@);
            let window = rule.1.window@;
            &&& 0 <= gone <= before.len()
            &&& forall|i: int|
                0 <= i < gone ==> window == 0 || (#[trigger] before[i]) + window <= now.nanos
            &&& gone < before.len() ==> window > 0 && now.nanos < before[gone] + window
            &&& resolution matches Resolution::Hit(resolved)
            &&& resolved.bindings == hit.bindings
            &&& match resolved.endpoint {
                Routed::Through(endpoint) => {
                    &&& before.len() - gone < rule.1.max
                    &&& endpoint == hit.endpoint
                    &&& after == before.skip(gone).push(now.nanos as nat)
                },
                Routed::Limited(over) => {
                    &&& before.len() - gone >= rule.1.max
                    &&& after == before.skip(gone)
                    &&& over.prefix@ == rule.0@
                    &&& over.rate == rule.1
                    &&& gone < before.len() && before[gone] <= now.nanos ==> now.nanos + over.retry@
                        == before[gone] + window
                    &&& gone == before.len() || now.nanos <= before[gone] ==> over.retry@ == window
                },
            }
        }),
        other != rule.0@ ==> final(hits).recorded(other) == old(hits).recorded(other),
{
    let before = old(hits).recorded(rule.0@);
    let left = live(before, now@, rule.1.window@);
    lemma_live_is_a_suffix(before, now@, rule.1.window@);
    let gone = before.len() - left.len();
    assert forall|i: int| 0 <= i < gone implies rule.1.window@ == 0 || (#[trigger] before[i])
        + rule.1.window@ <= now.nanos by {
        assert(expired(before[i], now@, rule.1.window@));
    }
    if gone < before.len() {
        assert(left[0] == before[gone]);
    }
    gone
}

} // verus!
