//! How lengths of time and moments are counted.

use vstd::prelude::*;

use crate::time::{Moment, Span};
use crate::window::Rate;

verus! {

/// So many seconds and nanoseconds are over after so many nanoseconds, a thousand million to the
/// second, and not before.
pub proof fn law_a_second_is_a_thousand_million_nanoseconds(
    secs: u64,
    nanos: u32,
    span: Span,
    whole: Span,
    passed: u128,
    over: bool,
    all_over: bool,
)
    requires
        nanos < 1_000_000_000,
        call_ensures(Span::new, (secs, nanos), span),
        call_ensures(Span::from_secs, (secs,), whole),
        call_ensures(Span::is_over, (&span, passed), over),
        call_ensures(Span::is_over, (&whole, passed), all_over),
    ensures
        over <==> secs * 1_000_000_000 + nanos <= passed,
        all_over <==> secs * 1_000_000_000 <= passed,
{
}

/// So many milliseconds are over after so many nanoseconds, a million to the millisecond, and not
/// before.
pub proof fn law_a_millisecond_is_a_million_nanoseconds(
    millis: u64,
    span: Span,
    passed: u128,
    over: bool,
)
    requires
        call_ensures(Span::from_millis, (millis,), span),
        call_ensures(Span::is_over, (&span, passed), over),
    ensures
        over <==> millis * 1_000_000 <= passed,
{
}

/// The whole seconds of a length of time are those it was made of.
pub proof fn law_whole_seconds_are_given_back(
    secs: u64,
    nanos: u32,
    span: Span,
    back: u64,
    millis: u64,
    short: Span,
    whole: u64,
)
    requires
        nanos < 1_000_000_000,
        call_ensures(Span::new, (secs, nanos), span),
        call_ensures(Span::as_secs, (&span,), back),
        call_ensures(Span::from_millis, (millis,), short),
        call_ensures(Span::as_secs, (&short,), whole),
    ensures
        back == secs,
        whole * 1_000 <= millis < (whole + 1) * 1_000,
{
}

/// What is left of a length of time is over when, with what was taken off it, the whole is.
pub proof fn law_what_is_left_ends_with_the_whole(
    span: Span,
    taken: u128,
    left: Span,
    more: u128,
    all: u128,
    left_over: bool,
    all_over: bool,
)
    requires
        all == taken + more,
        call_ensures(Span::saturating_sub_nanos, (&span, taken), left),
        call_ensures(Span::is_over, (&left, more), left_over),
        call_ensures(Span::is_over, (&span, all), all_over),
    ensures
        left_over <==> all_over,
{
}

/// The time from one moment to another leads from the one to the other, and there is none back.
pub proof fn law_time_leads_from_one_moment_to_another(now: Moment, earlier: Moment, nanos: u128)
    requires
        call_ensures(Moment::since, (&now, earlier), nanos),
    ensures
        earlier.nanos <= now.nanos ==> earlier.nanos + nanos == now.nanos,
        now.nanos <= earlier.nanos ==> nanos == 0,
{
}

/// A rate is the number and the window that it was made of.
pub proof fn law_a_rate_is_what_it_was_made_of(max: u32, window: Span, rate: Rate)
    requires
        call_ensures(Rate::new, (max, window), rate),
    ensures
        rate.max == max,
        rate.window == window,
{
}

} // verus!
