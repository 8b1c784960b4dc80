//! Rate-limiting: at most so many resolutions per time window, by prefix.

use vstd::prelude::*;
use vstd::string::StringExecFns;

use crate::hits::Hits;
use crate::resource::{transient, Error, Request, Resolution, Resolved, Verb};
use crate::rules::{
    add_rule, find_rule, law_longest_stays_first, lemma_one_rule_per_prefix, longest_first,
    rule_for, rules_of, with_rule, Rule,
};
use crate::text::{decimal, push_decimal};
use crate::time::{reads, Moment, Span, NANOS_PER_SEC};
use crate::window::{
    admits, admitted, asked, expired, law_admits_while_fewer_than_max_are_left,
    law_at_most_max_per_window, law_refusals_cost_nothing, law_refused_until_the_oldest_expires,
    lemma_admitted_are_spaced, lemma_live_is_a_suffix, live, nondecreasing, recorded, retry_after,
    Rate,
};

verus! {

/// An overlay that caps how often resources under a prefix may resolve. Wrap any space, then
/// [`limit`](Self::limit) one or more prefixes. The longest prefix wins; a target that none
/// covers is never limited.
///
/// What it has let through is kept in [`Hits`].
pub struct RateLimit<S> {
    inner: S,
    rules: Vec<(String, Rate)>,
}

/// What a request under a limit resolves to.
pub enum Routed<E> {
    /// The endpoint that the wrapped space resolved it to.
    Through(E),
    /// The endpoint that [`OverBudget::endpoint`] makes of this.
    Limited(OverBudget),
}

/// A resolution that was one too many.
pub struct OverBudget {
    /// The prefix whose budget is spent.
    pub prefix: String,
    /// That budget.
    pub rate: Rate,
    /// How long it is until the oldest resolution within it expires; the whole window, where the
    /// budget is none and so nothing is within it.
    pub retry: Span,
}

/// The rule under which a request counts: none for a request for a self-description, which is
/// never limited, else the one that governs its target.
pub open spec fn counted_under(rules: Seq<Rule>, verb: Verb, target: Seq<char>) -> Option<Rule> {
    if verb == Verb::Meta {
        None
    } else {
        rule_for(rules, target)
    }
}

/// What becomes of a request at the moment `now`, and what is recorded of it, given what the
/// wrapped space resolved it to.
///
/// A miss stays a miss. A hit that counts under no rule passes, and so does one within the
/// budget of its rule, which is recorded. A hit over the budget keeps its bindings, and its
/// endpoint is replaced.
pub open spec fn resolves<E, B>(
    rules: Seq<Rule>,
    before: Hits,
    request: Request,
    inner: Resolution<E, B>,
    now: nat,
    after: Hits,
    resolution: Resolution<Routed<E>, B>,
) -> bool {
    match inner {
        Resolution::Miss => after == before && resolution is Miss,
        Resolution::Hit(hit) => {
            &&& resolution is Hit
            &&& resolution->Hit_0.bindings == hit.bindings
            &&& match counted_under(rules, request.verb, request.target@) {
                None => {
                    &&& after == before
                    &&& resolution->Hit_0.endpoint == Routed::Through(hit.endpoint)
                },
                Some((prefix, rate)) => {
                    let hits = before.recorded(prefix);
                    &&& after.recorded(prefix) == asked(hits, rate, now)
                    &&& forall|other: Seq<char>|
                        other != prefix ==> #[trigger] after.recorded(other) == before.recorded(
                            other,
                        )
                    &&& if admits(hits, rate, now) {
                        resolution->Hit_0.endpoint == Routed::Through(hit.endpoint)
                    } else {
                        &&& resolution->Hit_0.endpoint matches Routed::Limited(over)
                        &&& over.prefix@ == prefix
                        &&& over.rate == rate
                        &&& over.retry@ == retry_after(hits, rate, now)
                    }
                },
            }
        },
    }
}

impl<S> RateLimit<S> {
    /// The space that is wrapped.
    pub closed spec fn wrapped(&self) -> S {
        self.inner
    }

    /// The limits, the longest prefix first.
    pub closed spec fn rules(&self) -> Seq<Rule> {
        rules_of(self.rules@)
    }

    /// Whether the longest prefix comes first.
    pub open spec fn wf(&self) -> bool {
        longest_first(self.rules())
    }

    /// Wrap `inner`; add limits with [`limit`](Self::limit).
    pub fn new(inner: S) -> (overlay: RateLimit<S>)
        ensures
            overlay.wf(),
            overlay.wrapped() == inner,
            overlay.rules() == Seq::<Rule>::empty(),
    {
        let overlay = RateLimit { inner, rules: Vec::new() };
        assert(overlay.rules() =~= Seq::<Rule>::empty());
        overlay
    }

    /// The space that is wrapped.
    pub fn inner(&self) -> (inner: &S)
        ensures
            *inner == self.wrapped(),
    {
        &self.inner
    }

    /// Cap resolutions of resources whose IRI starts with `prefix` at `rate`.
    pub fn limit(self, prefix: &str, rate: Rate) -> (overlay: RateLimit<S>)
        requires
            self.wf(),
        ensures
            overlay.wf(),
            overlay.wrapped() == self.wrapped(),
            overlay.rules() == with_rule(self.rules(), prefix@, rate),
    {
        proof {
            law_longest_stays_first(self.rules(), prefix@, rate);
        }
        let mut overlay = self;
        add_rule(&mut overlay.rules, prefix, rate);
        overlay
    }

    /// The most specific rule that covers `target`, if any.
    pub fn rule_for(&self, target: &str) -> (rule: Option<&(String, Rate)>)
        ensures
            match rule {
                Some(found) => rule_for(self.rules(), target@) == Some(
                    (found.0@, found.1),
                ),
                None => rule_for(self.rules(), target@) is None,
            },
    {
        match find_rule(&self.rules, target) {
            Some(at) => Some(&self.rules[at]),
            None => None,
        }
    }

    /// The rule under which a request counts where it is a hit. One that counts under none passes
    /// whatever the memory holds.
    pub fn counted_under(&self, request: &Request) -> (rule: Option<&(String, Rate)>)
        ensures
            match rule {
                Some(found) => counted_under(self.rules(), request.verb, request.target@) == Some(
                    (found.0@, found.1),
                ),
                None => counted_under(self.rules(), request.verb, request.target@) is None,
            },
    {
        if request.verb == Verb::Meta {
            return None;
        }
        self.rule_for(request.target.as_str())
    }

    /// What a request resolves to at the moment `now`, given what the wrapped space resolved it
    /// to.
    pub fn resolve_at<E, B>(
        &self,
        hits: &mut Hits,
        request: &Request,
        inner: Resolution<E, B>,
        now: Moment,
    ) -> (resolution: Resolution<Routed<E>, B>)
        requires
            old(hits).wf(),
        ensures
            final(hits).wf(),
            final(hits).origin() == old(hits).origin(),
            resolves(
                self.rules(),
                *old(hits),
                *request,
                inner,
                now@,
                *final(hits),
                resolution,
            ),
    {
        let hit = match inner {
            Resolution::Hit(hit) => hit,
            Resolution::Miss => {
                return Resolution::Miss;
            },
        };
        let bindings = hit.bindings;
        let (prefix, rate) = match self.counted_under(request) {
            Some(rule) => (&rule.0, rule.1),
            None => {
                return Resolution::Hit(
                    Resolved { endpoint: Routed::Through(hit.endpoint), bindings },
                );
            },
        };
        let endpoint = match hits.ask_at(prefix, rate, now) {
            Ok(_) => Routed::Through(hit.endpoint),
            Err(retry) => Routed::Limited(OverBudget { prefix: prefix.clone(), rate, retry }),
        };
        Resolution::Hit(Resolved { endpoint, bindings })
    }

    /// What a request resolves to now, given what the wrapped space resolved it to. The moment is
    /// a reading of the clock of the memory.
    pub fn resolve<E, B>(
        &self,
        hits: &mut Hits,
        request: &Request,
        inner: Resolution<E, B>,
    ) -> (resolution: Resolution<Routed<E>, B>)
        requires
            old(hits).wf(),
        ensures
            final(hits).wf(),
            final(hits).origin() == old(hits).origin(),
            exists|now: u128| #[trigger]
                reads(old(hits).origin(), now) && resolves(
                    self.rules(),
                    *old(hits),
                    *request,
                    inner,
                    now as nat,
                    *final(hits),
                    resolution,
                ),
    {
        let now = hits.now();
        self.resolve_at(hits, request, inner, now)
    }
}

/// What an endpoint says of itself.
pub struct Description {
    /// The endpoint identifier.
    pub id: String,
    /// A short human title.
    pub title: String,
    /// A longer human summary.
    pub summary: String,
    /// The verbs that the endpoint answers.
    pub verbs: Vec<Verb>,
    /// The media types that it can produce.
    pub outputs: Vec<String>,
}

/// The endpoint that an over-budget request resolves to: it answers every invocation with
/// [`refusal`](Self::refusal).
pub struct RateLimited {
    /// Why the request is refused, and when to come back.
    pub message: String,
    /// What the endpoint says of itself.
    pub description: Description,
}

/// The seconds after which to come back: the whole seconds of `retry`, and one more.
pub open spec fn retry_secs(retry: nat) -> nat {
    retry / (NANOS_PER_SEC as nat) + 1
}

/// The seconds of a window, as they are told: at least one.
pub open spec fn told_secs(window: nat) -> nat {
    let secs = window / (NANOS_PER_SEC as nat);
    if secs < 1 {
        1
    } else {
        secs
    }
}

/// The message to a request over the budget of `prefix`.
pub open spec fn refusal_text(prefix: Seq<char>, rate: Rate, retry: nat) -> Seq<char> {
    "rate-limited: `"@ + prefix + "` is capped at "@ + decimal(rate.max as nat)
        + "/"@ + decimal(told_secs(rate.window@)) + "s — retry after "@
        + decimal(retry_secs(retry)) + "s"@
}

/// The endpoint that an over-budget request resolves to, with an honest, actionable message.
pub fn rate_limited(prefix: &str, rate: Rate, retry: Span) -> (endpoint: RateLimited)
    requires
        retry_secs(retry@) <= u64::MAX,
    ensures
        endpoint.message@ == refusal_text(prefix@, rate, retry@),
        endpoint.description.id@ == "rate-limited"@,
        endpoint.description.title@ == "Rate limit reached"@,
        endpoint.description.summary@ == refusal_text(prefix@, rate, retry@),
        endpoint.description.verbs@ == seq![Verb::Source, Verb::Meta],
        endpoint.description.outputs@.len() == 1,
        endpoint.description.outputs@[0]@ == "text/plain;charset=utf-8"@,
{
    let secs: u64 = rate.window.as_secs();
    let told: u64 = if secs < 1 {
        1
    } else {
        secs
    };
    let mut message = "rate-limited: `".to_owned();
    message.append(prefix);
    message.append("` is capped at ");
    push_decimal(&mut message, rate.max as u64);
    message.append("/");
    push_decimal(&mut message, told);
    message.append("s — retry after ");
    push_decimal(&mut message, retry.as_secs() + 1);
    message.append("s");
    let description = Description {
        id: "rate-limited".to_owned(),
        title: "Rate limit reached".to_owned(),
        summary: message.clone(),
        verbs: vec![Verb::Source, Verb::Meta],
        outputs: vec!["text/plain;charset=utf-8".to_owned()],
    };
    RateLimited { message, description }
}

impl OverBudget {
    /// The endpoint that the request resolves to: it tells the prefix, its budget and the wait.
    pub fn endpoint(&self) -> (endpoint: RateLimited)
        requires
            retry_secs(self.retry@) <= u64::MAX,
        ensures
            endpoint.message@ == refusal_text(self.prefix@, self.rate, self.retry@),
            endpoint.description.id@ == "rate-limited"@,
            endpoint.description.title@ == "Rate limit reached"@,
            endpoint.description.summary@ == endpoint.message@,
            endpoint.description.verbs@ == seq![Verb::Source, Verb::Meta],
            endpoint.description.outputs@.len() == 1,
            endpoint.description.outputs@[0]@ == "text/plain;charset=utf-8"@,
    {
        rate_limited(self.prefix.as_str(), self.rate, self.retry)
    }
}

impl RateLimited {
    /// What every invocation of this endpoint is answered with: a permanent failure, so nothing
    /// that re-issues transient ones re-issues it.
    pub fn refusal(&self) -> (error: Error)
        ensures
            error matches Error::Endpoint(message) && message@ == self.message@,
            !transient(error),
    {
        Error::Endpoint(self.message.clone())
    }
}

/// A request, as a limit sees it.
pub struct Call {
    /// What is to be done.
    pub verb: Verb,
    /// The resource.
    pub target: Seq<char>,
    /// Whether the wrapped space resolved it.
    pub hit: bool,
    /// When it was.
    pub now: nat,
}

/// Whether a call counts toward the budget of `prefix`.
pub open spec fn counts(rules: Seq<Rule>, call: Call, prefix: Seq<char>) -> bool {
    call.hit && (counted_under(rules, call.verb, call.target) matches Some(rule) && rule.0
        == prefix)
}

/// What is recorded for `prefix` after `calls`.
pub open spec fn recorded_after(rules: Seq<Rule>, calls: Seq<Call>, prefix: Seq<char>) -> Seq<nat>
    decreases calls.len(),
{
    if calls.len() == 0 {
        Seq::empty()
    } else {
        let before = recorded_after(rules, calls.drop_last(), prefix);
        let call = calls.last();
        if counts(rules, call, prefix) {
            let rate = counted_under(rules, call.verb, call.target).unwrap().1;
            asked(before, rate, call.now)
        } else {
            before
        }
    }
}

/// When those of `calls` that count toward the budget of `prefix` were let through.
pub open spec fn let_through(rules: Seq<Rule>, calls: Seq<Call>, prefix: Seq<char>) -> Seq<nat>
    decreases calls.len(),
{
    if calls.len() == 0 {
        Seq::empty()
    } else {
        let before = recorded_after(rules, calls.drop_last(), prefix);
        let call = calls.last();
        let rate = counted_under(rules, call.verb, call.target).unwrap().1;
        if counts(rules, call, prefix) && admits(before, rate, call.now) {
            let_through(rules, calls.drop_last(), prefix).push(call.now)
        } else {
            let_through(rules, calls.drop_last(), prefix)
        }
    }
}

/// Whether the calls are in the order of time.
pub open spec fn in_order(calls: Seq<Call>) -> bool {
    forall|i: int, j: int|
        0 <= i <= j < calls.len() ==> (#[trigger] calls[i]).now <= (#[trigger] calls[j]).now
}

/// Calls are in the order of time where they are so with one more.
proof fn lemma_earlier_calls_in_order(calls: Seq<Call>, call: Call)
    requires
        in_order(calls.push(call)),
    ensures
        in_order(calls),
{
    let more = calls.push(call);
    assert forall|i: int, j: int| 0 <= i <= j < calls.len() implies (#[trigger] calls[i]).now
        <= (#[trigger] calls[j]).now by {
        assert(more[i].now <= more[j].now);
    }
}

/// When those of `calls` that count toward the budget of `prefix` were made.
spec fn times_under(rules: Seq<Rule>, calls: Seq<Call>, prefix: Seq<char>) -> Seq<nat>
    decreases calls.len(),
{
    if calls.len() == 0 {
        Seq::empty()
    } else if counts(rules, calls.last(), prefix) {
        times_under(rules, calls.drop_last(), prefix).push(calls.last().now)
    } else {
        times_under(rules, calls.drop_last(), prefix)
    }
}

/// The calls under one prefix are a run of its window.
proof fn lemma_calls_are_a_run(rules: Seq<Rule>, calls: Seq<Call>, target: Seq<char>)
    requires
        rule_for(rules, target) is Some,
        in_order(calls),
    ensures
        ({
            let (prefix, rate) = rule_for(rules, target)->0;
            let times = times_under(rules, calls, prefix);
            &&& nondecreasing(times)
            &&& forall|i: int| 0 <= i < times.len() ==> #[trigger] times[i] <= calls.last().now
            &&& times.len() > 0 ==> calls.len() > 0
            &&& recorded_after(rules, calls, prefix) == recorded(rate, times)
            &&& let_through(rules, calls, prefix) == admitted(rate, times)
        }),
    decreases calls.len(),
{
    if calls.len() > 0 {
        let (prefix, rate) = rule_for(rules, target)->0;
        let earlier = calls.drop_last();
        let call = calls.last();
        lemma_calls_are_a_run(rules, earlier, target);
        let before = times_under(rules, earlier, prefix);
        let times = times_under(rules, calls, prefix);
        if before.len() > 0 {
            assert(calls[earlier.len() - 1] == earlier.last());
            assert(earlier.last().now <= call.now);
        }
        if counts(rules, call, prefix) {
            lemma_one_rule_per_prefix(rules, target, call.target);
            assert(times.drop_last() =~= before);
        }
    }
}

/// The cap holds for a whole limiter: whatever calls are made, in the order of time, to whatever
/// targets, those that count toward the rule that governs some target are let through at most
/// `max` times within any stretch as long as the window of the rule.
pub proof fn law_cap_holds(rules: Seq<Rule>, calls: Seq<Call>, target: Seq<char>, from: nat)
    requires
        in_order(calls),
        rule_for(rules, target) is Some,
    ensures
        ({
            let (prefix, rate) = rule_for(rules, target)->0;
            let_through(rules, calls, prefix).filter(
                |t: nat| from <= t < from + rate.window@,
            ).len() <= rate.max
        }),
{
    let (prefix, rate) = rule_for(rules, target)->0;
    lemma_calls_are_a_run(rules, calls, target);
    law_at_most_max_per_window(rate, times_under(rules, calls, prefix), from);
}

/// A call is refused just when the budget is spent: a call that counts under a rule is let
/// through when, of the earlier calls that count under it, fewer than `max` were let through so
/// lately that they have not expired. Where it is refused, the oldest of these tells the wait.
pub proof fn law_refused_just_when_the_budget_is_spent(
    rules: Seq<Rule>,
    calls: Seq<Call>,
    call: Call,
    rule: Rule,
)
    requires
        in_order(calls.push(call)),
        counted_under(rules, call.verb, call.target) == Some(rule),
    ensures
        admits(recorded_after(rules, calls, rule.0), rule.1, call.now) <==> let_through(
            rules,
            calls,
            rule.0,
        ).filter(|hit: nat| !expired(hit, call.now, rule.1.window@)).len() < rule.1.max,
        ({
            let left = let_through(rules, calls, rule.0).filter(
                |hit: nat| !expired(hit, call.now, rule.1.window@),
            );
            &&& left.len() > 0 ==> left[0] <= call.now
            &&& retry_after(recorded_after(rules, calls, rule.0), rule.1, call.now)
                == if left.len() == 0 {
                rule.1.window@ as int
            } else {
                left[0] + rule.1.window@ - call.now
            }
        }),
{
    let more = calls.push(call);
    lemma_earlier_calls_in_order(calls, call);
    lemma_calls_are_a_run(rules, calls, call.target);
    let times = times_under(rules, calls, rule.0);
    let later = times.push(call.now);
    assert forall|i: int, j: int| 0 <= i <= j < later.len() implies later[i] <= later[j] by {
        if i < times.len() && j == times.len() {
            assert(times[i] <= calls.last().now);
            assert(more[calls.len() - 1].now <= more[calls.len() as int].now);
        }
    }
    law_admits_while_fewer_than_max_are_left(rule.1, times, call.now);
    lemma_admitted_are_spaced(rule.1, times);
    let hits = recorded(rule.1, times);
    let left = live(hits, call.now, rule.1.window@);
    lemma_live_is_a_suffix(hits, call.now, rule.1.window@);
    if left.len() > 0 {
        let passed = admitted(rule.1, times);
        assert(left[0] == passed[passed.len() - left.len()]);
        assert(later[times.len() - 1] <= later[times.len() as int]);
    }
}

/// Calls that are let through are only ever added.
proof fn lemma_let_through_only_grows(
    rules: Seq<Rule>,
    calls: Seq<Call>,
    between: Seq<Call>,
    prefix: Seq<char>,
)
    ensures
        let_through(rules, calls, prefix).len() <= let_through(
            rules,
            calls + between,
            prefix,
        ).len(),
    decreases between.len(),
{
    if between.len() == 0 {
        assert(calls + between =~= calls);
    } else {
        assert((calls + between).drop_last() =~= calls + between.drop_last());
        lemma_let_through_only_grows(rules, calls, between.drop_last(), prefix);
    }
}

/// Calls of which none is let through under a rule leave its answer later as it was.
proof fn lemma_nothing_let_through_in_between(
    rules: Seq<Rule>,
    calls: Seq<Call>,
    between: Seq<Call>,
    target: Seq<char>,
    later: nat,
)
    requires
        rule_for(rules, target) is Some,
        forall|i: int| 0 <= i < between.len() ==> (#[trigger] between[i]).now <= later,
        let_through(rules, calls + between, rule_for(rules, target).unwrap().0).len()
            == let_through(rules, calls, rule_for(rules, target).unwrap().0).len(),
    ensures
        ({
            let (prefix, rate) = rule_for(rules, target)->0;
            admits(recorded_after(rules, calls + between, prefix), rate, later) == admits(
                recorded_after(rules, calls, prefix),
                rate,
                later,
            )
        }),
    decreases between.len(),
{
    let (prefix, rate) = rule_for(rules, target)->0;
    if between.len() == 0 {
        assert(calls + between =~= calls);
    } else {
        let rest = between.drop_last();
        let call = between.last();
        assert((calls + between).drop_last() =~= calls + rest);
        assert((calls + between).last() == call);
        lemma_let_through_only_grows(rules, calls, rest, prefix);
        assert forall|i: int| 0 <= i < rest.len() implies (#[trigger] rest[i]).now <= later by {
            assert(rest[i] == between[i]);
        }
        lemma_nothing_let_through_in_between(rules, calls, rest, target, later);
        if counts(rules, call, prefix) {
            lemma_one_rule_per_prefix(rules, target, call.target);
            assert(between[between.len() - 1].now <= later);
            law_refusals_cost_nothing(
                recorded_after(rules, calls + rest, prefix),
                rate,
                call.now,
                later,
            );
        }
    }
}

/// The advice that a refusal gives is honest: where a call was refused, whatever calls come
/// `between`, as long as none of them is let through under the same rule, the same call made
/// again `later` is let through just when the wait that it was told is over. The whole seconds of
/// the message are never too few.
pub proof fn law_advice_is_honest(
    rules: Seq<Rule>,
    calls: Seq<Call>,
    call: Call,
    rule: Rule,
    between: Seq<Call>,
    later: nat,
)
    requires
        in_order((calls.push(call) + between).push((Call { now: later, ..call }))),
        call.hit,
        counted_under(rules, call.verb, call.target) == Some(rule),
        rule.1.max > 0,
        !admits(recorded_after(rules, calls, rule.0), rule.1, call.now),
        let_through(rules, calls.push(call) + between, rule.0) == let_through(
            rules,
            calls.push(call),
            rule.0,
        ),
    ensures
        ({
            let wait = retry_after(recorded_after(rules, calls, rule.0), rule.1, call.now);
            let before = calls.push(call) + between;
            &&& admits(recorded_after(rules, before, rule.0), rule.1, later) <==> call.now + wait
                <= later
            &&& call.now + retry_secs(wait) * NANOS_PER_SEC <= later ==> let_through(
                rules,
                before.push((Call { now: later, ..call })),
                rule.0,
            ) == let_through(rules, before, rule.0).push(later)
        }),
{
    let (prefix, rate) = rule;
    let more = calls.push(call);
    let before = more + between;
    let again = Call { now: later, ..call };
    let all = before.push(again);
    let hits = recorded_after(rules, calls, prefix);
    assert(more.drop_last() =~= calls);
    assert(all.drop_last() =~= before);
    assert forall|i: int, j: int| 0 <= i <= j < more.len() implies (#[trigger] more[i]).now
        <= (#[trigger] more[j]).now by {
        assert(all[i] == more[i] && all[j] == more[j]);
    }
    assert(all[calls.len() as int].now <= all[before.len() as int].now);
    assert forall|i: int| 0 <= i < between.len() implies (#[trigger] between[i]).now <= later by {
        assert(all[more.len() + i].now <= all[before.len() as int].now);
    }
    lemma_earlier_calls_in_order(calls, call);
    lemma_calls_are_a_run(rules, calls, call.target);
    let times = times_under(rules, calls, prefix);
    lemma_admitted_are_spaced(rate, times);
    let passed = admitted(rate, times);
    assert forall|i: int| 0 <= i < hits.len() implies #[trigger] hits[i] <= call.now by {
        assert(hits[i] == passed[passed.len() - hits.len() + i]);
        assert(more[calls.len() - 1].now <= more[calls.len() as int].now);
    }
    law_refused_until_the_oldest_expires(hits, rate, call.now, later);
    lemma_nothing_let_through_in_between(rules, more, between, call.target, later);
}

/// The memory follows the calls: where it held what is recorded after `calls`, it holds what is
/// recorded after one more once that one has resolved; and that one is let through just when it
/// passes and counts.
pub proof fn law_memory_follows_the_calls<E, B>(
    rules: Seq<Rule>,
    calls: Seq<Call>,
    before: Hits,
    request: Request,
    inner: Resolution<E, B>,
    now: nat,
    after: Hits,
    resolution: Resolution<Routed<E>, B>,
)
    requires
        forall|prefix: Seq<char>| #[trigger]
            before.recorded(prefix) == recorded_after(rules, calls, prefix),
        resolves(rules, before, request, inner, now, after, resolution),
    ensures
        ({
            let call = Call {
                verb: request.verb,
                target: request.target@,
                hit: inner is Hit,
                now,
            };
            let more = calls.push(call);
            &&& forall|prefix: Seq<char>| #[trigger]
                after.recorded(prefix) == recorded_after(rules, more, prefix)
            &&& forall|prefix: Seq<char>| #[trigger]
                let_through(rules, more, prefix) == if counts(rules, call, prefix)
                    && resolution->Hit_0.endpoint is Through {
                    let_through(rules, calls, prefix).push(now)
                } else {
                    let_through(rules, calls, prefix)
                }
        }),
{
    let call = Call { verb: request.verb, target: request.target@, hit: inner is Hit, now };
    let more = calls.push(call);
    assert(more.drop_last() =~= calls);
    assert forall|prefix: Seq<char>| #[trigger]
        after.recorded(prefix) == recorded_after(rules, more, prefix) by {
        assert(before.recorded(prefix) == recorded_after(rules, calls, prefix));
    }
    assert forall|prefix: Seq<char>| #[trigger]
        let_through(rules, more, prefix) == if counts(rules, call, prefix)
            && resolution->Hit_0.endpoint is Through {
            let_through(rules, calls, prefix).push(now)
        } else {
            let_through(rules, calls, prefix)
        } by {
        assert(before.recorded(prefix) == recorded_after(rules, calls, prefix));
    }
}

} // verus!
