//! Which limit governs a target.

use vstd::prelude::*;
use vstd::seq_lib::to_multiset_insert;

use crate::rate_limit::RateLimit;
use crate::resource::{Request, Verb};
use crate::rules::{
    byte_len, law_longest_prefix_wins, law_new_rule_governs_what_it_is_most_specific_for,
    lemma_place, place,
};
use crate::window::Rate;

verus! {

/// Whether `text` starts with the characters of `start`.
pub open spec fn starts(text: Seq<char>, start: Seq<char>) -> bool {
    start.len() <= text.len() && text.take(start.len() as int) == start
}

/// Text starts with what it was put together from first, and with nothing else of that length.
pub(crate) proof fn lemma_starts(text: Seq<char>, start: Seq<char>)
    ensures
        starts(text, start) <==> start.is_prefix_of(text),
        starts(text, start) <==> exists|rest: Seq<char>| text == start + rest,
{
    if start.is_prefix_of(text) {
        assert(text.take(start.len() as int) =~= start);
        assert(text =~= start + text.skip(start.len() as int));
    }
    if exists|rest: Seq<char>| text == start + rest {
        let rest = choose|rest: Seq<char>| text == start + rest;
        assert(text.take(start.len() as int) =~= start);
    }
}

/// Nothing is limited before a limit is set.
pub proof fn law_without_limits_nothing_is_limited<S>(
    inner: S,
    bare: RateLimit<S>,
    target: &str,
    found: Option<&(String, Rate)>,
)
    requires
        call_ensures(RateLimit::<S>::new, (inner,), bare),
        call_ensures(RateLimit::<S>::rule_for, (&bare, target), found),
    ensures
        found is None,
{
}

/// One limit governs exactly the targets that start with its prefix, whatever follows, and it
/// governs them with its own prefix and rate.
pub proof fn law_a_limit_governs_what_starts_with_its_prefix<S>(
    inner: S,
    bare: RateLimit<S>,
    prefix: &str,
    rate: Rate,
    overlay: RateLimit<S>,
    target: &str,
    found: Option<&(String, Rate)>,
)
    requires
        call_ensures(RateLimit::<S>::new, (inner,), bare),
        call_ensures(RateLimit::<S>::limit, (bare, prefix, rate), overlay),
        call_ensures(RateLimit::<S>::rule_for, (&overlay, target), found),
    ensures
        found is Some <==> exists|rest: Seq<char>| target@ == prefix@ + rest,
        found matches Some(rule) ==> rule.0@ == prefix@ && rule.1 == rate,
{
    lemma_starts(target@, prefix@);
    law_new_rule_governs_what_it_is_most_specific_for(bare.rules(), prefix@, rate, target@);
}

/// What one more limit changes: it governs the targets that start with its prefix and that no
/// limit with a prefix as long governed before. Every other target keeps what it had.
pub proof fn law_one_more_limit<S>(
    before: RateLimit<S>,
    prefix: &str,
    rate: Rate,
    after: RateLimit<S>,
    target: &str,
    had: Option<&(String, Rate)>,
    has: Option<&(String, Rate)>,
)
    requires
        before.wf(),
        call_ensures(RateLimit::<S>::limit, (before, prefix, rate), after),
        call_ensures(RateLimit::<S>::rule_for, (&before, target), had),
        call_ensures(RateLimit::<S>::rule_for, (&after, target), has),
    ensures
        after.wf(),
        starts(target@, prefix@) && (had matches Some(rule) ==> rule.0@.len() < prefix@.len())
            ==> (has matches Some(rule) && rule.0@ == prefix@ && rule.1 == rate),
        !(starts(target@, prefix@) && (had matches Some(rule) ==> rule.0@.len() < prefix@.len()))
            ==> match had {
            Some(rule) => has matches Some(same) && same.0@ == rule.0@ && same.1 == rule.1,
            None => has is None,
        },
{
    lemma_starts(target@, prefix@);
    law_new_rule_governs_what_it_is_most_specific_for(before.rules(), prefix@, rate, target@);
}

/// The limits that are set are those that were set before, and the new one.
pub proof fn law_limits_are_kept<S>(
    before: RateLimit<S>,
    prefix: &str,
    rate: Rate,
    after: RateLimit<S>,
)
    requires
        before.wf(),
        call_ensures(RateLimit::<S>::limit, (before, prefix, rate), after),
    ensures
        after.rules().to_multiset() == before.rules().to_multiset().insert((prefix@, rate)),
{
    let len = byte_len(prefix@);
    lemma_place(before.rules(), len);
    to_multiset_insert(before.rules(), place(before.rules(), len), (prefix@, rate));
}

/// The longest prefix wins, on the characters: where a limit governs a target, it is one of those
/// that were set, the target starts with its prefix, and no limit whose prefix the target starts
/// with is longer. Where none governs it, the target starts with the prefix of none.
pub proof fn law_the_longest_start_wins<S>(
    overlay: RateLimit<S>,
    target: &str,
    found: Option<&(String, Rate)>,
    other: int,
    len: int,
)
    requires
        overlay.wf(),
        call_ensures(RateLimit::<S>::rule_for, (&overlay, target), found),
        0 <= other < overlay.rules().len(),
        0 <= len <= target@.len(),
    ensures
        match found {
            Some(rule) => {
                &&& overlay.rules().contains((rule.0@, rule.1))
                &&& starts(target@, rule.0@)
                &&& overlay.rules()[other].0 == target@.take(len) ==> len <= rule.0@.len()
            },
            None => overlay.rules()[other].0 != target@.take(len),
        },
{
    law_longest_prefix_wins(overlay.rules(), target@);
    if found is Some {
        lemma_starts(target@, found.unwrap().0@);
    }
    if overlay.rules()[other].0 == target@.take(len) {
        lemma_starts(target@, overlay.rules()[other].0);
        assert(target@.take(overlay.rules()[other].0.len() as int) =~= overlay.rules()[other].0);
    }
}

/// The space that is wrapped is the one that was given, whatever limits are set.
pub proof fn law_the_wrapped_space_is_kept<S>(
    inner: S,
    bare: RateLimit<S>,
    wrapped: &S,
    before: RateLimit<S>,
    prefix: &str,
    rate: Rate,
    after: RateLimit<S>,
    one: &S,
    other: &S,
)
    requires
        call_ensures(RateLimit::<S>::new, (inner,), bare),
        call_ensures(RateLimit::<S>::inner, (&bare,), wrapped),
        call_ensures(RateLimit::<S>::inner, (&before,), one),
        call_ensures(RateLimit::<S>::limit, (before, prefix, rate), after),
        call_ensures(RateLimit::<S>::inner, (&after,), other),
    ensures
        *wrapped == inner,
        *other == *one,
{
}

/// A request for a self-description counts under no limit. Any other request counts under the
/// limit that governs its target, whatever its verb.
pub proof fn law_every_verb_but_meta_counts<S>(
    overlay: RateLimit<S>,
    request: Request,
    target: &str,
    governs: Option<&(String, Rate)>,
    counted: Option<&(String, Rate)>,
)
    requires
        target@ == request.target@,
        call_ensures(RateLimit::<S>::rule_for, (&overlay, target), governs),
        call_ensures(RateLimit::<S>::counted_under, (&overlay, &request), counted),
    ensures
        request.verb == Verb::Meta ==> counted is None,
        request.verb != Verb::Meta ==> match governs {
            Some(rule) => counted matches Some(same) && same.0@ == rule.0@ && same.1 == rule.1,
            None => counted is None,
        },
{
}

} // verus!
