//! Limits by prefix, and the one that governs a target.
//!
//! Rules are kept with the longest prefix first, so that the first one that covers a target is
//! the most specific; rules with prefixes of one length keep the order in which they were added.

use vstd::prelude::*;
use vstd::utf8::encode_scalar;
use vstd::utf8::encode_utf8;

use crate::window::Rate;

verus! {

/// A limit: the prefix, and the rate at which resources under it may resolve.
pub type Rule = (Seq<char>, Rate);

/// The number of bytes that `text` takes.
pub open spec fn byte_len(text: Seq<char>) -> nat {
    encode_utf8(text).len()
}

/// Whether resources named `target` are under `prefix`.
pub open spec fn covers(prefix: Seq<char>, target: Seq<char>) -> bool {
    prefix.is_prefix_of(target)
}

/// Whether the longest prefix comes first.
pub open spec fn longest_first(rules: Seq<Rule>) -> bool {
    forall|i: int, j: int|
        0 <= i <= j < rules.len() ==> byte_len(#[trigger] rules[i].0) >= byte_len(
            #[trigger] rules[j].0,
        )
}

/// Where a rule with a prefix of `len` bytes goes: before the first shorter one, or at the end.
pub open spec fn place(rules: Seq<Rule>, len: nat) -> int
    decreases rules.len(),
{
    if rules.len() == 0 || byte_len(rules[0].0) < len {
        0
    } else {
        1 + place(rules.drop_first(), len)
    }
}

/// The rules with one more.
pub open spec fn with_rule(rules: Seq<Rule>, prefix: Seq<char>, rate: Rate) -> Seq<Rule> {
    rules.insert(place(rules, byte_len(prefix)), (prefix, rate))
}

/// The rule that governs `target`: the first that covers it.
pub open spec fn rule_for(rules: Seq<Rule>, target: Seq<char>) -> Option<Rule>
    decreases rules.len(),
{
    if rules.len() == 0 {
        None
    } else if covers(rules[0].0, target) {
        Some(rules[0])
    } else {
        rule_for(rules.drop_first(), target)
    }
}

/// The rules of a list, as plain data.
pub open spec fn rules_of(rules: Seq<(String, Rate)>) -> Seq<Rule> {
    rules.map_values(|rule: (String, Rate)| (rule.0@, rule.1))
}

/// Calls `str::starts_with` with a string slice as the pattern, which answers whether the
/// slice is a prefix of the text.
#[verifier::external_body]
fn starts_with(text: &str, prefix: &str) -> (starts: bool)
    ensures
        starts == prefix@.is_prefix_of(text@),
{
    text.starts_with(prefix)
}

/// The index at which a rule with this prefix belongs.
fn place_of(rules: &Vec<(String, Rate)>, prefix: &str) -> (at: usize)
    ensures
        at <= rules@.len(),
        at == place(rules_of(rules@), byte_len(prefix@)),
{
    let len: usize = prefix.as_bytes().len();
    let mut at: usize = 0;
    let ghost all = rules_of(rules@);
    assert(all.skip(0) =~= all);
    while at < rules.len() && rules[at].0.as_str().as_bytes().len() >= len
        invariant
            at <= rules@.len(),
            len == byte_len(prefix@),
            all == rules_of(rules@),
            at + place(all.skip(at as int), len as nat) == place(all, len as nat),
        decreases rules@.len() - at,
    {
        assert(all.skip(at as int).drop_first() =~= all.skip(at + 1));
        at = at + 1;
    }
    at
}

/// Adds a rule, behind those with a prefix at least as long.
pub(crate) fn add_rule(rules: &mut Vec<(String, Rate)>, prefix: &str, rate: Rate)
    ensures
        rules_of(final(rules)@) == with_rule(rules_of(old(rules)@), prefix@, rate),
{
    let at: usize = place_of(rules, prefix);
    let ghost before = rules_of(rules@);
    rules.insert(at, (prefix.to_owned(), rate));
    assert(rules_of(rules@) =~= before.insert(at as int, (prefix@, rate)));
}

/// The index of the first rule that covers `target`.
pub(crate) fn find_rule(rules: &Vec<(String, Rate)>, target: &str) -> (found: Option<usize>)
    ensures
        match found {
            Some(at) => {
                &&& at < rules@.len()
                &&& rule_for(rules_of(rules@), target@) == Some(
                    (rules@[at as int].0@, rules@[at as int].1),
                )
            },
            None => rule_for(rules_of(rules@), target@) is None,
        },
{
    let ghost all = rules_of(rules@);
    assert(all.skip(0) =~= all);
    let mut at: usize = 0;
    while at < rules.len()
        invariant
            at <= rules@.len(),
            all == rules_of(rules@),
            rule_for(all.skip(at as int), target@) == rule_for(all, target@),
        decreases rules@.len() - at,
    {
        if starts_with(target, rules[at].0.as_str()) {
            return Some(at);
        }
        assert(all.skip(at as int).drop_first() =~= all.skip(at + 1));
        at = at + 1;
    }
    None
}

/// Text that is put together takes the bytes of its parts.
proof fn lemma_byte_len_of_both(first: Seq<char>, second: Seq<char>)
    ensures
        byte_len(first + second) == byte_len(first) + byte_len(second),
    decreases first.len(),
{
    if first.len() == 0 {
        assert(first + second =~= second);
    } else {
        assert((first + second).drop_first() =~= first.drop_first() + second);
        lemma_byte_len_of_both(first.drop_first(), second);
    }
}

/// Text takes no fewer bytes than it has characters.
proof fn lemma_a_byte_or_more_each(text: Seq<char>)
    ensures
        byte_len(text) >= text.len(),
    decreases text.len(),
{
    broadcast use vstd::utf8::char_is_scalar;

    if text.len() > 0 {
        assert(encode_scalar(text[0] as u32).len() >= 1);
        lemma_a_byte_or_more_each(text.drop_first());
    }
}

/// Of two prefixes of one target, the one that takes more bytes is the longer one.
proof fn lemma_longer_takes_more_bytes(one: Seq<char>, other: Seq<char>, target: Seq<char>)
    requires
        covers(one, target),
        covers(other, target),
    ensures
        byte_len(one) < byte_len(other) <==> one.len() < other.len(),
        one.len() == other.len() ==> one == other,
{
    let (short, long) = if one.len() <= other.len() {
        (one, other)
    } else {
        (other, one)
    };
    let rest = long.skip(short.len() as int);
    assert(long =~= short + rest);
    lemma_byte_len_of_both(short, rest);
    lemma_a_byte_or_more_each(rest);
    if one.len() == other.len() {
        assert(one =~= other);
    }
}

/// A rule goes where the order is kept: behind what is at least as long, before what is shorter.
pub(crate) proof fn lemma_place(rules: Seq<Rule>, len: nat)
    requires
        longest_first(rules),
    ensures
        0 <= place(rules, len) <= rules.len(),
        forall|i: int| 0 <= i < place(rules, len) ==> byte_len(#[trigger] rules[i].0) >= len,
        forall|i: int|
            place(rules, len) <= i < rules.len() ==> byte_len(#[trigger] rules[i].0) < len,
    decreases rules.len(),
{
    if rules.len() > 0 && byte_len(rules[0].0) >= len {
        let rest = rules.drop_first();
        lemma_place(rest, len);
        assert forall|i: int| 0 <= i < place(rules, len) implies byte_len(#[trigger] rules[i].0)
            >= len by {
            if i > 0 {
                assert(rest[i - 1] == rules[i]);
            }
        }
        assert forall|i: int| place(rules, len) <= i < rules.len() implies byte_len(
            #[trigger] rules[i].0,
        ) < len by {
            assert(rest[i - 1] == rules[i]);
        }
    }
}

/// What the first covering rule is: it stands in the list, it covers the target, and nothing
/// before it does.
pub(crate) proof fn lemma_rule_for(rules: Seq<Rule>, target: Seq<char>) -> (at: int)
    ensures
        0 <= at <= rules.len(),
        forall|i: int| 0 <= i < at ==> !covers(#[trigger] rules[i].0, target),
        match rule_for(rules, target) {
            Some(rule) => at < rules.len() && rule == rules[at] && covers(rule.0, target),
            None => at == rules.len(),
        },
    decreases rules.len(),
{
    if rules.len() == 0 || covers(rules[0].0, target) {
        0
    } else {
        let rest = rules.drop_first();
        let at = 1 + lemma_rule_for(rest, target);
        assert forall|i: int| 0 <= i < at implies !covers(#[trigger] rules[i].0, target) by {
            if i > 0 {
                assert(rest[i - 1] == rules[i]);
            }
        }
        at
    }
}

/// The first covering rule is at `at`, where nothing before `at` covers the target.
proof fn lemma_rule_for_is_at(rules: Seq<Rule>, target: Seq<char>, at: int)
    requires
        0 <= at <= rules.len(),
        forall|i: int| 0 <= i < at ==> !covers(#[trigger] rules[i].0, target),
        at < rules.len() ==> covers(rules[at].0, target),
    ensures
        rule_for(rules, target) == if at < rules.len() {
            Some(rules[at])
        } else {
            None
        },
{
    let found = lemma_rule_for(rules, target);
    if found < at {
        assert(!covers(rules[found].0, target));
    }
    if at < found {
        assert(!covers(rules[at].0, target));
    }
}

/// Targets that are governed under one prefix are governed by one rule.
pub(crate) proof fn lemma_one_rule_per_prefix(
    rules: Seq<Rule>,
    target: Seq<char>,
    other: Seq<char>,
)
    requires
        rule_for(rules, target) is Some,
        rule_for(rules, other) is Some,
        rule_for(rules, target).unwrap().0 == rule_for(rules, other).unwrap().0,
    ensures
        rule_for(rules, target) == rule_for(rules, other),
{
    let at = lemma_rule_for(rules, target);
    let found = lemma_rule_for(rules, other);
    if at < found {
        assert(!covers(rules[at].0, other));
    }
    if found < at {
        assert(!covers(rules[found].0, target));
    }
}

/// Adding a rule keeps the longest prefix first.
pub proof fn law_longest_stays_first(rules: Seq<Rule>, prefix: Seq<char>, rate: Rate)
    requires
        longest_first(rules),
    ensures
        longest_first(with_rule(rules, prefix, rate)),
{
    let len = byte_len(prefix);
    lemma_place(rules, len);
    let at = place(rules, len);
    let more = with_rule(rules, prefix, rate);
    assert forall|i: int, j: int| 0 <= i <= j < more.len() implies byte_len(#[trigger] more[i].0)
        >= byte_len(#[trigger] more[j].0) by {
        if i < at {
            assert(more[i] == rules[i]);
        } else if i > at {
            assert(more[i] == rules[i - 1]);
        }
        if j < at {
            assert(more[j] == rules[j]);
        } else if j > at {
            assert(more[j] == rules[j - 1]);
        }
    }
}

/// The longest prefix wins: the rule that governs a target covers it, and no rule that covers
/// it has a longer prefix. Where none governs it, none covers it.
pub proof fn law_longest_prefix_wins(rules: Seq<Rule>, target: Seq<char>)
    requires
        longest_first(rules),
    ensures
        match rule_for(rules, target) {
            Some(rule) => {
                &&& rules.contains(rule)
                &&& covers(rule.0, target)
                &&& forall|i: int|
                    0 <= i < rules.len() && covers(#[trigger] rules[i].0, target)
                        ==> rules[i].0.len() <= rule.0.len()
            },
            None => forall|i: int|
                0 <= i < rules.len() ==> !covers(#[trigger] rules[i].0, target),
        },
{
    let at = lemma_rule_for(rules, target);
    if rule_for(rules, target) is Some {
        assert forall|i: int| 0 <= i < rules.len() && covers(
            #[trigger] rules[i].0,
            target,
        ) implies rules[i].0.len() <= rules[at].0.len() by {
            lemma_longer_takes_more_bytes(rules[at].0, rules[i].0, target);
        }
    }
}

/// A rule governs what starts with its prefix, whatever follows: where it is the only one, every
/// text that is put together of its prefix and anything else is governed by it.
pub proof fn law_a_rule_governs_what_starts_with_its_prefix(
    prefix: Seq<char>,
    rate: Rate,
    rest: Seq<char>,
)
    ensures
        rule_for(with_rule(Seq::empty(), prefix, rate), prefix + rest) == Some((prefix, rate)),
{
    law_new_rule_governs_what_it_is_most_specific_for(
        Seq::empty(),
        prefix,
        rate,
        prefix + rest,
    );
    assert(prefix.is_prefix_of(prefix + rest));
}

/// A rule governs nothing but what starts with its prefix, and nothing that starts with a prefix
/// goes ungoverned: the rule that governs a target has the first characters of the target for a
/// prefix, and where none governs it, no rule has any number of its first characters.
pub proof fn law_ungoverned_just_where_no_prefix_fits(
    rules: Seq<Rule>,
    target: Seq<char>,
    at: int,
    len: int,
)
    requires
        0 <= at < rules.len(),
        0 <= len <= target.len(),
    ensures
        match rule_for(rules, target) {
            Some(rule) => rule.0.len() <= target.len() && rule.0 == target.take(
                rule.0.len() as int,
            ),
            None => rules[at].0 != target.take(len),
        },
{
    let found = lemma_rule_for(rules, target);
    match rule_for(rules, target) {
        Some(rule) => {
            assert(rule.0 =~= target.take(rule.0.len() as int));
        },
        None => {
            assert(!covers(rules[at].0, target));
            assert(target.take(len).is_prefix_of(target));
        },
    }
}

/// What a new rule changes: it governs the targets that it covers and that no rule with a prefix
/// at least as long covered before. Every other target keeps the rule that it had, or had not.
/// So a second rule for one prefix never governs anything.
pub proof fn law_new_rule_governs_what_it_is_most_specific_for(
    rules: Seq<Rule>,
    prefix: Seq<char>,
    rate: Rate,
    target: Seq<char>,
)
    requires
        longest_first(rules),
    ensures
        rule_for(with_rule(rules, prefix, rate), target) == if covers(prefix, target) && (rule_for(
            rules,
            target,
        ) matches Some(rule) ==> rule.0.len() < prefix.len()) {
            Some((prefix, rate))
        } else {
            rule_for(rules, target)
        },
{
    let len = byte_len(prefix);
    lemma_place(rules, len);
    let place = place(rules, len);
    let more = with_rule(rules, prefix, rate);
    let at = lemma_rule_for(rules, target);
    assert forall|i: int| 0 <= i < place implies more[i] == rules[i] by {}
    assert forall|i: int| place < i < more.len() implies more[i] == rules[i - 1] by {}
    if rule_for(rules, target) is Some && covers(prefix, target) {
        lemma_longer_takes_more_bytes(rules[at].0, prefix, target);
    }
    if at < place {
        lemma_rule_for_is_at(more, target, at);
    } else if covers(prefix, target) {
        assert forall|i: int| 0 <= i < place implies !covers(#[trigger] more[i].0, target) by {
            assert(!covers(rules[i].0, target));
        }
        lemma_rule_for_is_at(more, target, place);
    } else {
        assert forall|i: int| 0 <= i < at + 1 implies !covers(#[trigger] more[i].0, target) by {
            if i < place {
                assert(!covers(rules[i].0, target));
            } else if i > place {
                assert(!covers(rules[i - 1].0, target));
            }
        }
        lemma_rule_for_is_at(more, target, at + 1);
    }
}

/// The order in which two prefixes are limited does not matter.
pub proof fn law_order_of_limits_does_not_matter(
    rules: Seq<Rule>,
    first: Rule,
    second: Rule,
    target: Seq<char>,
)
    requires
        longest_first(rules),
        first.0 != second.0,
    ensures
        rule_for(with_rule(with_rule(rules, first.0, first.1), second.0, second.1), target)
            == rule_for(with_rule(with_rule(rules, second.0, second.1), first.0, first.1), target),
{
    let one = with_rule(rules, first.0, first.1);
    let other = with_rule(rules, second.0, second.1);
    law_longest_stays_first(rules, first.0, first.1);
    law_longest_stays_first(rules, second.0, second.1);
    law_new_rule_governs_what_it_is_most_specific_for(rules, first.0, first.1, target);
    law_new_rule_governs_what_it_is_most_specific_for(rules, second.0, second.1, target);
    law_new_rule_governs_what_it_is_most_specific_for(one, second.0, second.1, target);
    law_new_rule_governs_what_it_is_most_specific_for(other, first.0, first.1, target);
    if covers(first.0, target) && covers(second.0, target) {
        lemma_longer_takes_more_bytes(first.0, second.0, target);
    }
}

} // verus!
