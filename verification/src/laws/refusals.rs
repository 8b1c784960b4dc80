//! What a request over its budget is told.

use vstd::prelude::*;

use crate::rate_limit::{rate_limited, retry_secs, told_secs, OverBudget, RateLimited};
use crate::resource::{Error, Verb};
use crate::text::decimal;
use crate::time::Span;
use crate::window::Rate;

verus! {

/// The number that decimal digits stand for.
pub open spec fn value(digits: Seq<char>) -> nat
    decreases digits.len(),
{
    if digits.len() == 0 {
        0
    } else {
        (10 * value(digits.drop_last()) + (digits.last() as int - '0' as int)) as nat
    }
}

/// Whether a text is the number `n` as people write it: digits that stand for it, with no nought in
/// front but for nought itself.
pub open spec fn numeral(text: Seq<char>, n: nat) -> bool {
    &&& text.len() > 0
    &&& forall|i: int| 0 <= i < text.len() ==> '0' <= #[trigger] text[i] <= '9'
    &&& text[0] == '0' ==> text.len() == 1
    &&& value(text) == n
}

/// Decimal notation is a numeral.
proof fn lemma_decimal(n: nat)
    ensures
        numeral(decimal(n), n),
    decreases n,
{
    let text = decimal(n);
    if n >= 10 {
        lemma_decimal(n / 10);
        let rest = decimal(n / 10);
        assert(text.drop_last() =~= rest);
        assert forall|i: int| 0 <= i < text.len() implies '0' <= #[trigger] text[i] <= '9' by {
            if i < rest.len() {
                assert(text[i] == rest[i]);
            }
        }
        assert(text[0] == rest[0]);
        if rest[0] == '0' {
            assert(value(rest) == 0) by {
                assert(rest.drop_last() =~= Seq::empty());
                assert(value(rest.drop_last()) == 0);
            }
        }
    } else {
        assert(text.drop_last() =~= Seq::empty());
        assert(value(text.drop_last()) == 0);
    }
}

/// Whether `text` tells that `prefix` is capped at `max` per `secs` seconds, and to come back after
/// `wait` seconds.
pub open spec fn tells(text: Seq<char>, prefix: Seq<char>, max: nat, secs: nat, wait: nat) -> bool {
    exists|most: Seq<char>, per: Seq<char>, after: Seq<char>|
        #![trigger numeral(most, max), numeral(per, secs), numeral(after, wait)]
        numeral(most, max) && numeral(per, secs) && numeral(after, wait) && text
            == "rate-limited: `"@ + prefix + "` is capped at "@ + most + "/"@ + per
            + "s — retry after "@ + after + "s"@
}

/// A refusal tells the prefix whose budget is spent, the budget, and the wait: the whole seconds of
/// the window, at least one, and whole seconds that are more than the wait, by one second at most.
/// Every invocation of the endpoint that it stands for is answered with that text, as a failure of
/// the endpoint, and the endpoint describes itself with it.
pub proof fn law_a_refusal_tells_the_budget_and_the_wait(
    over: OverBudget,
    endpoint: RateLimited,
    error: Error,
    secs: nat,
    wait: nat,
)
    requires
        call_ensures(OverBudget::endpoint, (&over,), endpoint),
        call_ensures(RateLimited::refusal, (&endpoint,), error),
        secs >= 1,
        secs * 1_000_000_000 <= over.rate.window@ || secs == 1,
        over.rate.window@ < (secs + 1) * 1_000_000_000,
        over.retry@ < wait * 1_000_000_000,
        wait * 1_000_000_000 <= over.retry@ + 1_000_000_000,
    ensures
        error matches Error::Endpoint(message) && tells(
            message@,
            over.prefix@,
            over.rate.max as nat,
            secs,
            wait,
        ) && endpoint.description.summary@ == message@,
        endpoint.description.id@ == "rate-limited"@,
        endpoint.description.title@ == "Rate limit reached"@,
        endpoint.description.verbs@ == seq![Verb::Source, Verb::Meta],
        endpoint.description.outputs@.len() == 1,
        endpoint.description.outputs@[0]@ == "text/plain;charset=utf-8"@,
{
    lemma_decimal(over.rate.max as nat);
    lemma_decimal(secs);
    lemma_decimal(wait);
    assert(told_secs(over.rate.window@) == secs);
    assert(retry_secs(over.retry@) == wait);
}

/// The endpoint of a refusal is made of its three parts alone.
pub proof fn law_the_parts_make_the_endpoint(
    over: OverBudget,
    one: RateLimited,
    prefix: &str,
    rate: Rate,
    retry: Span,
    other: RateLimited,
)
    requires
        call_ensures(OverBudget::endpoint, (&over,), one),
        call_ensures(rate_limited, (prefix, rate, retry), other),
        over.prefix@ == prefix@,
        over.rate == rate,
        over.retry@ == retry@,
    ensures
        one.message@ == other.message@,
        one.description.id@ == other.description.id@,
        one.description.title@ == other.description.title@,
        one.description.summary@ == other.description.summary@,
        one.description.verbs@ == other.description.verbs@,
        one.description.outputs@.len() == other.description.outputs@.len(),
        one.description.outputs@[0]@ == other.description.outputs@[0]@,
{
}

} // verus!
