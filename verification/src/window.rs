//! The sliding window behind a rate limit.
//!
//! A window is the queue of the moments at which it admitted a resolution, oldest first. It is
//! told the present moment, drops what has grown older than the limit's window, and admits while
//! fewer than the limit's maximum are left.

use std::collections::VecDeque;

use vstd::prelude::*;

use crate::time::{elapsed, Moment, Span};

verus! {

/// A velocity cap: at most `max` resolutions per `window`.
#[derive(Clone, Copy, Debug)]
pub struct Rate {
    /// The most resolutions allowed within one window.
    pub max: u32,
    /// The sliding window.
    pub window: Span,
}

impl Rate {
    /// `max` resolutions per `window`.
    pub fn new(max: u32, window: Span) -> (rate: Rate)
        ensures
            rate.max == max,
            rate.window == window,
    {
        Rate { max, window }
    }
}

/// Whether a resolution at the moment `hit` has grown older than `window` by `now`.
pub open spec fn expired(hit: nat, now: nat, window: nat) -> bool {
    elapsed(now, hit) >= window
}

/// What is left of `hits` at `now`: the expired ones at the front are dropped, up to the first
/// that has not expired.
pub open spec fn live(hits: Seq<nat>, now: nat, window: nat) -> Seq<nat>
    decreases hits.len(),
{
    if hits.len() > 0 && expired(hits[0], now, window) {
        live(hits.drop_first(), now, window)
    } else {
        hits
    }
}

/// Whether a window that has recorded `hits` admits one more resolution at `now`.
pub open spec fn admits(hits: Seq<nat>, rate: Rate, now: nat) -> bool {
    live(hits, now, rate.window@).len() < rate.max
}

/// What the window has recorded once it was asked at `now`: an admitted resolution is added,
/// a refused one leaves no trace.
pub open spec fn asked(hits: Seq<nat>, rate: Rate, now: nat) -> Seq<nat> {
    if admits(hits, rate, now) {
        live(hits, now, rate.window@).push(now)
    } else {
        live(hits, now, rate.window@)
    }
}

/// How long after `now` the oldest of the `hits` left at `now` expires; a whole window, where
/// none is left.
pub open spec fn retry_after(hits: Seq<nat>, rate: Rate, now: nat) -> nat {
    let left = live(hits, now, rate.window@);
    if left.len() == 0 {
        rate.window@
    } else if elapsed(now, left[0]) <= rate.window@ {
        (rate.window@ - elapsed(now, left[0])) as nat
    } else {
        0
    }
}

/// The moments of a queue, as numbers.
pub open spec fn moments(queue: Seq<Moment>) -> Seq<nat> {
    queue.map_values(|moment: Moment| moment@)
}

/// Drops the hits at the front that have expired by `now`.
fn expire(hits: &mut VecDeque<Moment>, window: Span, now: Moment)
    ensures
        moments(final(hits)@) == live(moments(old(hits)@), now@, window@),
{
    while hits.len() > 0 && window.is_over(now.since(hits[0]))
        invariant
            live(moments(hits@), now@, window@) == live(moments(old(hits)@), now@, window@),
        decreases hits@.len(),
    {
        let ghost before = moments(hits@);
        hits.pop_front();
        assert(moments(hits@) =~= before.drop_first());
    }
}

/// Asks the window for one more resolution at `now`: records it and admits it, or refuses it
/// with how long it is until the oldest recorded one expires, or the whole window where none is
/// recorded, as under a cap of none.
pub(crate) fn ask(hits: &mut VecDeque<Moment>, rate: Rate, now: Moment) -> (answer: Result<
    (),
    Span,
>)
    ensures
        moments(final(hits)@) == asked(moments(old(hits)@), rate, now@),
        match answer {
            Ok(_) => admits(moments(old(hits)@), rate, now@),
            Err(retry) => {
                &&& !admits(moments(old(hits)@), rate, now@)
                &&& retry@ == retry_after(moments(old(hits)@), rate, now@)
            },
        },
{
    expire(hits, rate.window, now);
    if hits.len() >= rate.max as usize {
        if hits.len() == 0 {
            return Err(rate.window);
        }
        return Err(rate.window.saturating_sub_nanos(now.since(hits[0])));
    }
    let ghost left = moments(hits@);
    hits.push_back(now);
    assert(moments(hits@) =~= left.push(now@));
    Ok(())
}

/// Whether the moments never go back.
pub open spec fn nondecreasing(times: Seq<nat>) -> bool {
    forall|i: int, j: int| 0 <= i <= j < times.len() ==> times[i] <= times[j]
}

/// What a window has recorded after it was asked at each of `times`, in that order.
pub open spec fn recorded(rate: Rate, times: Seq<nat>) -> Seq<nat>
    decreases times.len(),
{
    if times.len() == 0 {
        Seq::empty()
    } else {
        asked(recorded(rate, times.drop_last()), rate, times.last())
    }
}

/// Those of `times` at which a window that was asked at each of them, in that order, admitted
/// the resolution.
pub open spec fn admitted(rate: Rate, times: Seq<nat>) -> Seq<nat>
    decreases times.len(),
{
    if times.len() == 0 {
        Seq::empty()
    } else if admits(recorded(rate, times.drop_last()), rate, times.last()) {
        admitted(rate, times.drop_last()).push(times.last())
    } else {
        admitted(rate, times.drop_last())
    }
}

/// What is left of a queue is its end, and what was dropped from it had expired.
pub(crate) proof fn lemma_live_is_a_suffix(hits: Seq<nat>, now: nat, window: nat)
    ensures
        live(hits, now, window).len() <= hits.len(),
        live(hits, now, window) == hits.skip(hits.len() - live(hits, now, window).len()),
        forall|i: int|
            0 <= i < hits.len() - live(hits, now, window).len() ==> expired(
                #[trigger] hits[i],
                now,
                window,
            ),
        live(hits, now, window).len() > 0 ==> !expired(live(hits, now, window)[0], now, window),
    decreases hits.len(),
{
    if hits.len() > 0 && expired(hits[0], now, window) {
        let rest = hits.drop_first();
        lemma_live_is_a_suffix(rest, now, window);
        let kept = live(hits, now, window);
        assert(rest.skip(rest.len() - kept.len()) =~= hits.skip(hits.len() - kept.len()));
        assert forall|i: int| 0 <= i < hits.len() - kept.len() implies expired(
            #[trigger] hits[i],
            now,
            window,
        ) by {
            if i > 0 {
                assert(rest[i - 1] == hits[i]);
            }
        }
    } else {
        assert(hits.skip(0) =~= hits);
    }
}

/// What a window has recorded is the end of what it admitted, everything before that is older
/// than the window, and any admitted resolution is a whole window later than the one `max`
/// places before it.
pub(crate) proof fn lemma_admitted_are_spaced(rate: Rate, times: Seq<nat>)
    requires
        nondecreasing(times),
    ensures
        recorded(rate, times).len() <= admitted(rate, times).len(),
        recorded(rate, times).len() <= rate.max,
        recorded(rate, times) == admitted(rate, times).skip(
            admitted(rate, times).len() - recorded(rate, times).len(),
        ),
        nondecreasing(admitted(rate, times)),
        forall|i: int|
            0 <= i < admitted(rate, times).len() ==> #[trigger] admitted(rate, times)[i]
                <= times.last(),
        forall|i: int|
            0 <= i < admitted(rate, times).len() - recorded(rate, times).len()
                ==> #[trigger] admitted(rate, times)[i] + rate.window@ <= times.last(),
        forall|i: int, j: int|
            0 <= i && i + rate.max <= j < admitted(rate, times).len() ==> #[trigger] admitted(
                rate,
                times,
            )[i] + rate.window@ <= #[trigger] admitted(rate, times)[j],
    decreases times.len(),
{
    if times.len() > 0 {
        let earlier = times.drop_last();
        let now = times.last();
        let window = rate.window@;
        lemma_admitted_are_spaced(rate, earlier);
        let before = admitted(rate, earlier);
        let queue = recorded(rate, earlier);
        let kept = live(queue, now, window);
        let after = admitted(rate, times);
        lemma_live_is_a_suffix(queue, now, window);
        if earlier.len() > 0 {
            assert(times[earlier.len() - 1] == earlier.last());
            assert(earlier.last() <= now);
        }
        let gone = before.len() - kept.len();
        assert forall|i: int| 0 <= i < gone implies #[trigger] before[i] + window <= now by {
            let k = before.len() - queue.len();
            if i >= k {
                assert(queue[i - k] == before[i]);
                assert(expired(queue[i - k], now, window));
            }
        }
        assert(kept =~= before.skip(gone));
        if admits(queue, rate, now) {
            assert(recorded(rate, times) =~= after.skip(gone));
            assert(after.len() - recorded(rate, times).len() == gone);
        }
    }
}

/// Of a run of moments with an end after each, those between `from` and `to` stand together.
proof fn lemma_counted_stand_together(times: Seq<nat>, from: nat, to: nat) -> (first: int)
    requires
        nondecreasing(times),
        times.filter(|t: nat| from <= t < to).len() > 0,
    ensures
        0 <= first,
        first + times.filter(|t: nat| from <= t < to).len() <= times.len(),
        from <= times[first],
        times[first + times.filter(|t: nat| from <= t < to).len() - 1] < to,
    decreases times.len(),
{
    reveal(Seq::filter);
    let counted = |t: nat| from <= t < to;
    let rest = times.drop_last();
    if rest.filter(counted).len() > 0 {
        lemma_counted_stand_together(rest, from, to)
    } else {
        times.len() - 1
    }
}

/// The cap holds: of the moments at which a window was asked, however many there are and
/// however they lie, at most `max` were admitted within any stretch as long as the window.
pub proof fn law_at_most_max_per_window(rate: Rate, times: Seq<nat>, from: nat)
    requires
        nondecreasing(times),
    ensures
        admitted(rate, times).filter(|t: nat| from <= t < from + rate.window@).len() <= rate.max,
{
    lemma_admitted_are_spaced(rate, times);
    let passed = admitted(rate, times);
    let within = passed.filter(|t: nat| from <= t < from + rate.window@).len();
    if within > rate.max {
        let first = lemma_counted_stand_together(passed, from, (from + rate.window@) as nat);
        assert(passed[first] + rate.window@ <= passed[first + within - 1]);
    }
}

/// Where nothing in a queue has expired, all of it is left.
proof fn lemma_nothing_to_drop(hits: Seq<nat>, now: nat, window: nat)
    requires
        forall|i: int| 0 <= i < hits.len() ==> !expired(#[trigger] hits[i], now, window),
    ensures
        hits.filter(|hit: nat| !expired(hit, now, window)) == hits,
    decreases hits.len(),
{
    reveal(Seq::filter);
    if hits.len() > 0 {
        let rest = hits.drop_last();
        assert forall|i: int| 0 <= i < rest.len() implies !expired(
            #[trigger] rest[i],
            now,
            window,
        ) by {
            assert(rest[i] == hits[i]);
        }
        lemma_nothing_to_drop(rest, now, window);
        assert(!expired(hits[hits.len() - 1], now, window));
        assert(rest.push(hits.last()) =~= hits);
    } else {
        assert(hits.filter(|hit: nat| !expired(hit, now, window)) =~= hits);
    }
}

/// A window drops what has expired, and nothing else: of resolutions in the order of time, those
/// are left that have not expired.
pub proof fn law_what_has_not_expired_is_left(hits: Seq<nat>, now: nat, window: nat)
    requires
        nondecreasing(hits),
    ensures
        live(hits, now, window) == hits.filter(|hit: nat| !expired(hit, now, window)),
    decreases hits.len(),
{
    let left = |hit: nat| !expired(hit, now, window);
    if hits.len() > 0 && expired(hits[0], now, window) {
        let rest = hits.drop_first();
        law_what_has_not_expired_is_left(rest, now, window);
        let oldest = seq![hits[0]];
        assert(hits =~= oldest + rest);
        Seq::filter_distributes_over_add(oldest, rest, left);
        assert(oldest.filter(left) =~= Seq::empty()) by {
            reveal(Seq::filter);
            assert(oldest.drop_last().filter(left) =~= Seq::empty());
        }
        assert(Seq::<nat>::empty() + rest.filter(left) =~= rest.filter(left));
    } else {
        assert forall|i: int| 0 <= i < hits.len() implies !expired(
            #[trigger] hits[i],
            now,
            window,
        ) by {
            assert(hits[0] <= hits[i]);
        }
        lemma_nothing_to_drop(hits, now, window);
    }
}

/// Where everything in a queue has expired, nothing of it is left.
proof fn lemma_nothing_left(hits: Seq<nat>, now: nat, window: nat)
    requires
        forall|i: int| 0 <= i < hits.len() ==> expired(#[trigger] hits[i], now, window),
    ensures
        hits.filter(|hit: nat| !expired(hit, now, window)).len() == 0,
    decreases hits.len(),
{
    reveal(Seq::filter);
    if hits.len() > 0 {
        let rest = hits.drop_last();
        assert forall|i: int| 0 <= i < rest.len() implies expired(
            #[trigger] rest[i],
            now,
            window,
        ) by {
            assert(rest[i] == hits[i]);
        }
        lemma_nothing_left(rest, now, window);
        assert(expired(hits[hits.len() - 1], now, window));
    }
}

/// What decides is what was admitted, not how it is kept: what is left at `now` of what a window
/// that was asked at each of `times` has recorded is what has not expired of all that it admitted,
/// and it admits one more just when that is fewer than `max`.
pub proof fn law_admits_while_fewer_than_max_are_left(rate: Rate, times: Seq<nat>, now: nat)
    requires
        nondecreasing(times.push(now)),
    ensures
        live(recorded(rate, times), now, rate.window@) == admitted(rate, times).filter(
            |hit: nat| !expired(hit, now, rate.window@),
        ),
        admits(recorded(rate, times), rate, now) <==> admitted(rate, times).filter(
            |hit: nat| !expired(hit, now, rate.window@),
        ).len() < rate.max,
{
    let more = times.push(now);
    assert forall|i: int, j: int| 0 <= i <= j < times.len() implies times[i] <= times[j] by {
        assert(more[i] <= more[j]);
    }
    lemma_admitted_are_spaced(rate, times);
    let window = rate.window@;
    let left = |hit: nat| !expired(hit, now, window);
    let passed = admitted(rate, times);
    let kept = recorded(rate, times);
    let gone = passed.take(passed.len() - kept.len());
    assert(passed =~= gone + kept);
    assert forall|i: int, j: int| 0 <= i <= j < kept.len() implies kept[i] <= kept[j] by {
        assert(kept[i] == passed[gone.len() + i]);
        assert(kept[j] == passed[gone.len() + j]);
    }
    assert forall|i: int| 0 <= i < gone.len() implies expired(#[trigger] gone[i], now, window) by {
        assert(gone[i] == passed[i]);
        assert(more[times.len() - 1] <= more[times.len() as int]);
    }
    lemma_nothing_left(gone, now, window);
    Seq::filter_distributes_over_add(gone, kept, left);
    law_what_has_not_expired_is_left(kept, now, window);
    assert(passed.filter(left) =~= kept.filter(left));
}

/// The budget is granted: a window that was asked no more than `max` times has admitted every
/// one of them.
pub proof fn law_budget_is_granted(rate: Rate, times: Seq<nat>)
    requires
        times.len() <= rate.max,
    ensures
        admitted(rate, times) == times,
    decreases times.len(),
{
    lemma_recorded_no_more_than_asked(rate, times);
    if times.len() > 0 {
        law_budget_is_granted(rate, times.drop_last());
        lemma_recorded_no_more_than_asked(rate, times.drop_last());
        lemma_live_is_a_suffix(recorded(rate, times.drop_last()), times.last(), rate.window@);
        assert(times.drop_last().push(times.last()) =~= times);
    } else {
        assert(times =~= Seq::empty());
    }
}

/// A window has recorded no more resolutions than it was asked for.
proof fn lemma_recorded_no_more_than_asked(rate: Rate, times: Seq<nat>)
    ensures
        recorded(rate, times).len() <= times.len(),
    decreases times.len(),
{
    if times.len() > 0 {
        lemma_recorded_no_more_than_asked(rate, times.drop_last());
        lemma_live_is_a_suffix(recorded(rate, times.drop_last()), times.last(), rate.window@);
    }
}

/// A window never holds more than `max` resolutions: asking it keeps that so, whenever it is
/// asked.
pub proof fn law_holds_at_most_max(hits: Seq<nat>, rate: Rate, now: nat)
    requires
        hits.len() <= rate.max,
    ensures
        asked(hits, rate, now).len() <= rate.max,
{
    lemma_live_is_a_suffix(hits, now, rate.window@);
}

/// A cap of none admits nothing, ever: nothing is recorded, and the wait that is told is always
/// the whole window.
pub proof fn law_no_budget_admits_nothing(rate: Rate, times: Seq<nat>, now: nat)
    requires
        rate.max == 0,
    ensures
        admitted(rate, times).len() == 0,
        !admits(recorded(rate, times), rate, now),
        retry_after(recorded(rate, times), rate, now) == rate.window@,
    decreases times.len(),
{
    lemma_nothing_recorded(rate, times);
    if times.len() > 0 {
        law_no_budget_admits_nothing(rate, times.drop_last(), now);
    }
}

/// Under a cap of none nothing is recorded.
proof fn lemma_nothing_recorded(rate: Rate, times: Seq<nat>)
    requires
        rate.max == 0,
    ensures
        recorded(rate, times).len() == 0,
    decreases times.len(),
{
    if times.len() > 0 {
        lemma_nothing_recorded(rate, times.drop_last());
    }
}

/// What is left later of what is left now is what is left later.
proof fn lemma_live_twice(hits: Seq<nat>, now: nat, later: nat, window: nat)
    requires
        now <= later,
    ensures
        live(live(hits, now, window), later, window) == live(hits, later, window),
    decreases hits.len(),
{
    if hits.len() > 0 && expired(hits[0], now, window) {
        lemma_live_twice(hits.drop_first(), now, later, window);
    }
}

/// A refusal costs nothing: asking a window in vain changes neither its answer at any later
/// moment nor what it has recorded then.
pub proof fn law_refusals_cost_nothing(hits: Seq<nat>, rate: Rate, now: nat, later: nat)
    requires
        !admits(hits, rate, now),
        now <= later,
    ensures
        admits(asked(hits, rate, now), rate, later) == admits(hits, rate, later),
        asked(asked(hits, rate, now), rate, later) == asked(hits, rate, later),
{
    lemma_live_twice(hits, now, later, rate.window@);
}

/// The window slides: once everything recorded has grown as old as the window, one more is
/// admitted, and it is all that is recorded.
pub proof fn law_window_slides(hits: Seq<nat>, rate: Rate, now: nat)
    requires
        rate.max > 0,
        forall|i: int| 0 <= i < hits.len() ==> #[trigger] hits[i] + rate.window@ <= now,
    ensures
        admits(hits, rate, now),
        asked(hits, rate, now) == seq![now],
{
    lemma_live_is_a_suffix(hits, now, rate.window@);
    let kept = live(hits, now, rate.window@);
    if kept.len() > 0 {
        assert(kept[0] == hits[hits.len() - kept.len()]);
    }
    assert(asked(hits, rate, now) =~= seq![now]);
}

/// The wait that a refusal tells is the wait there is: until the oldest resolution has expired
/// the window refuses, and from then on it admits.
pub proof fn law_refused_until_the_oldest_expires(
    hits: Seq<nat>,
    rate: Rate,
    now: nat,
    later: nat,
)
    requires
        rate.max > 0,
        hits.len() <= rate.max,
        forall|i: int| 0 <= i < hits.len() ==> #[trigger] hits[i] <= now,
        !admits(hits, rate, now),
        now <= later,
    ensures
        admits(asked(hits, rate, now), rate, later) <==> now + retry_after(hits, rate, now)
            <= later,
{
    let window = rate.window@;
    lemma_live_is_a_suffix(hits, now, window);
    let queue = live(hits, now, window);
    let oldest = queue[0];
    assert(oldest == hits[hits.len() - queue.len()]);
    if now + retry_after(hits, rate, now) <= later {
        assert(expired(oldest, later, window));
        lemma_live_is_a_suffix(queue.drop_first(), later, window);
    } else {
        assert(!expired(oldest, later, window));
    }
}

} // verus!
