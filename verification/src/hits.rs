//! What the limits have let through, by prefix.

use std::collections::VecDeque;
use std::time::Instant;

use vstd::prelude::*;

use crate::time::{reads, Clock, Moment, Span};
use crate::window::{admits, ask, asked, moments, retry_after, Rate};

verus! {

/// What one prefix has let through.
struct Log {
    prefix: String,
    hits: VecDeque<Moment>,
}

/// The memory of a rate limit: for each prefix the moments at which it let a resolution through,
/// oldest first, as far as they still matter. A host keeps it behind a lock.
pub struct Hits {
    logs: Vec<Log>,
    clock: Clock,
}

/// What the first log for `prefix` has recorded; nothing, where there is no such log.
spec fn log_of(logs: Seq<Log>, prefix: Seq<char>) -> Seq<nat>
    decreases logs.len(),
{
    if logs.len() == 0 {
        Seq::empty()
    } else if logs[0].prefix@ == prefix {
        moments(logs[0].hits@)
    } else {
        log_of(logs.drop_first(), prefix)
    }
}

/// A log that is the first for its prefix is the one that counts.
proof fn lemma_first_log(logs: Seq<Log>, at: int)
    requires
        0 <= at < logs.len(),
        forall|i: int| 0 <= i < at ==> #[trigger] logs[i].prefix@ != logs[at].prefix@,
    ensures
        log_of(logs, logs[at].prefix@) == moments(logs[at].hits@),
    decreases logs.len(),
{
    if at > 0 {
        let rest = logs.drop_first();
        assert(logs[0].prefix@ != logs[at].prefix@);
        assert forall|i: int| 0 <= i < at - 1 implies #[trigger] rest[i].prefix@ != rest[at
            - 1].prefix@ by {
            assert(logs[i + 1].prefix@ != logs[at].prefix@);
        }
        lemma_first_log(rest, at - 1);
    }
}

/// What a log has recorded is nothing to another prefix.
proof fn lemma_other_logs(logs: Seq<Log>, more: Seq<Log>, at: int, prefix: Seq<char>)
    requires
        0 <= at < logs.len(),
        more.len() == logs.len(),
        logs[at].prefix@ != prefix,
        more[at].prefix@ != prefix,
        forall|i: int| 0 <= i < logs.len() && i != at ==> #[trigger] more[i] == logs[i],
    ensures
        log_of(more, prefix) == log_of(logs, prefix),
    decreases logs.len(),
{
    if at == 0 {
        assert(more.drop_first() =~= logs.drop_first());
    } else {
        assert(more[0] == logs[0]);
        assert forall|i: int| 0 <= i < logs.len() - 1 && i != at
            - 1 implies #[trigger] more.drop_first()[i] == logs.drop_first()[i] by {
            assert(more[i + 1] == logs[i + 1]);
        }
        lemma_other_logs(logs.drop_first(), more.drop_first(), at - 1, prefix);
    }
}

/// A log that is still empty adds nothing.
proof fn lemma_empty_log(logs: Seq<Log>, log: Log, prefix: Seq<char>)
    requires
        log.hits@.len() == 0,
    ensures
        log_of(logs.push(log), prefix) == log_of(logs, prefix),
    decreases logs.len(),
{
    if logs.len() == 0 {
        assert(moments(log.hits@) =~= Seq::<nat>::empty());
        assert(logs.push(log).drop_first() =~= logs);
    } else {
        assert(logs.push(log).drop_first() =~= logs.drop_first().push(log));
        lemma_empty_log(logs.drop_first(), log, prefix);
    }
}

impl Hits {
    /// Whether every prefix has one log at the most.
    pub closed spec fn wf(&self) -> bool {
        forall|i: int, j: int|
            0 <= i < j < self.logs@.len() ==> (#[trigger] self.logs@[i]).prefix@ != (
            #[trigger] self.logs@[j]).prefix@
    }

    /// The moments that are recorded for `prefix`, oldest first.
    pub closed spec fn recorded(&self, prefix: Seq<char>) -> Seq<nat> {
        log_of(self.logs@, prefix)
    }

    /// The moment from which the clock of this memory counts, and so every recorded moment.
    pub closed spec fn origin(&self) -> Instant {
        self.clock.origin()
    }

    /// A memory in which nothing is recorded.
    pub fn new() -> (hits: Hits)
        ensures
            hits.wf(),
            forall|prefix: Seq<char>| #[trigger] hits.recorded(prefix) == Seq::<nat>::empty(),
    {
        Hits { logs: Vec::new(), clock: Clock::new() }
    }

    /// The present moment, on the clock of this memory.
    pub(crate) fn now(&self) -> (now: Moment)
        ensures
            reads(self.origin(), now.nanos),
    {
        self.clock.now()
    }

    /// The index of the log for `prefix`, which is made where there is none.
    fn log_for(&mut self, prefix: &String) -> (at: usize)
        requires
            old(self).wf(),
        ensures
            final(self).wf(),
            final(self).origin() == old(self).origin(),
            at < final(self).logs@.len(),
            final(self).logs@[at as int].prefix@ == prefix@,
            forall|i: int|
                0 <= i < at ==> (#[trigger] final(self).logs@[i]).prefix@ != prefix@,
            forall|other: Seq<char>| #[trigger]
                final(self).recorded(other) == old(self).recorded(other),
    {
        let mut at: usize = 0;
        while at < self.logs.len()
            invariant
                at <= self.logs@.len(),
                *self == *old(self),
                self.wf(),
                forall|i: int| 0 <= i < at ==> (#[trigger] self.logs@[i]).prefix@ != prefix@,
            decreases self.logs@.len() - at,
        {
            if self.logs[at].prefix == *prefix {
                return at;
            }
            at = at + 1;
        }
        let ghost before = self.logs@;
        let log = Log { prefix: prefix.clone(), hits: VecDeque::new() };
        proof {
            assert forall|other: Seq<char>| #[trigger]
                log_of(before.push(log), other) == log_of(before, other) by {
                lemma_empty_log(before, log, other);
            }
        }
        self.logs.push(log);
        at
    }

    /// Asks the window of `prefix` for one more resolution at `now`: records it and admits it,
    /// or refuses it with how long it is until the oldest recorded one expires, or the whole
    /// window where none is recorded.
    pub(crate) fn ask_at(&mut self, prefix: &String, rate: Rate, now: Moment) -> (answer: Result<
        (),
        Span,
    >)
        requires
            old(self).wf(),
        ensures
            final(self).wf(),
            final(self).origin() == old(self).origin(),
            final(self).recorded(prefix@) == asked(
                old(self).recorded(prefix@),
                rate,
                now@,
            ),
            forall|other: Seq<char>|
                other != prefix@ ==> #[trigger] final(self).recorded(other) == old(self).recorded(
                    other,
                ),
            match answer {
                Ok(_) => admits(old(self).recorded(prefix@), rate, now@),
                Err(retry) => {
                    &&& !admits(old(self).recorded(prefix@), rate, now@)
                    &&& retry@ == retry_after(
                        old(self).recorded(prefix@),
                        rate,
                        now@,
                    )
                },
            },
    {
        let at: usize = self.log_for(prefix);
        let ghost found = *self;
        let ghost before = self.logs@;
        proof {
            lemma_first_log(before, at as int);
            assert(found.recorded(prefix@) == old(self).recorded(prefix@));
        }
        let answer = ask(&mut self.logs[at].hits, rate, now);
        proof {
            lemma_first_log(self.logs@, at as int);
            assert forall|other: Seq<char>| other != prefix@ implies #[trigger] self.recorded(other)
                == old(self).recorded(other) by {
                lemma_other_logs(before, self.logs@, at as int, other);
                assert(found.recorded(other) == old(self).recorded(other));
            }
        }
        answer
    }
}

} // verus!
