//! A bounded log of the daemon's own messages.

use vstd::prelude::*;

use std::collections::VecDeque;

use crate::seqs::{lemma_filter_holds, lemma_filter_keeps_order};

verus! {

/// How many messages are kept.
pub const CAPACITY: usize = 2000;

/// A message of the log.
#[derive(Debug)]
pub struct LogEntry {
    /// The number of the message; a later message has a higher one.
    pub seq: u64,
    pub ts_ms: u64,
    /// `info` or `warn`.
    pub level: String,
    pub message: String,
}

/// A message of the log.
pub struct LogEntryView {
    pub seq: u64,
    pub ts_ms: u64,
    pub level: Seq<char>,
    pub message: Seq<char>,
}

impl View for LogEntry {
    type V = LogEntryView;

    open spec fn view(&self) -> LogEntryView {
        LogEntryView {
            seq: self.seq,
            ts_ms: self.ts_ms,
            level: self.level@,
            message: self.message@,
        }
    }
}

impl DeepView for LogEntry {
    type V = LogEntryView;

    open spec fn deep_view(&self) -> LogEntryView {
        self@
    }
}

impl Clone for LogEntry {
    fn clone(&self) -> (r: Self)
        ensures
            r@ == self@,
    {
        LogEntry {
            seq: self.seq,
            ts_ms: self.ts_ms,
            level: self.level.clone(),
            message: self.message.clone(),
        }
    }
}

/// The newest messages, oldest first.
pub struct Log {
    entries: VecDeque<LogEntry>,
    next_seq: u64,
}

/// The newest messages, oldest first, and the number of the next one.
pub struct LogView {
    pub entries: Seq<LogEntryView>,
    pub next_seq: u64,
}

impl LogView {
    /// Whether the numbers ascend in the order of the messages, stay below the
    /// next one, and no more messages are kept than there may be.
    pub open spec fn ordered(self) -> bool {
        &&& self.entries.len() <= CAPACITY
        &&& forall|i: int, j: int|
            #![trigger self.entries[i], self.entries[j]]
            0 <= i < j < self.entries.len() ==> self.entries[i].seq < self.entries[j].seq
        &&& forall|i: int|
            0 <= i < self.entries.len() ==> (#[trigger] self.entries[i]).seq < self.next_seq
    }

    /// The log after a further message.
    pub open spec fn with(self, ts_ms: u64, level: Seq<char>, message: Seq<char>) -> LogView {
        let kept = if self.entries.len() == CAPACITY {
            self.entries.drop_first()
        } else {
            self.entries
        };
        LogView {
            entries: kept.push(LogEntryView { seq: self.next_seq, ts_ms, level, message }),
            next_seq: (self.next_seq + 1) as u64,
        }
    }
}

impl View for Log {
    type V = LogView;

    closed spec fn view(&self) -> LogView {
        LogView {
            entries: self.entries@.map_values(|e: LogEntry| e@),
            next_seq: self.next_seq,
        }
    }
}

impl Log {
    #[verifier::type_invariant]
    spec fn inv(self) -> bool {
        self@.ordered()
    }

    /// An empty log.
    pub fn new() -> (r: Self)
        ensures
            r@ == (LogView { entries: Seq::empty(), next_seq: 1 }),
            r@.ordered(),
    {
        let r = Log { entries: VecDeque::new(), next_seq: 1 };
        proof {
            assert(r@.entries =~= Seq::empty());
        }
        r
    }

    /// Appends a message; the oldest one goes where there is no room.
    pub fn push(&mut self, ts_ms: u64, level: &str, message: String)
        requires
            old(self)@.next_seq < u64::MAX,
        ensures
            final(self)@ == old(self)@.with(ts_ms, level@, message@),
            final(self)@.ordered(),
    {
        proof {
            use_type_invariant(&*self);
        }
        let ghost before = self@;
        let ghost raw = self.entries@;
        let seq: u64 = self.next_seq;
        let mut entries: VecDeque<LogEntry> = VecDeque::new();
        core::mem::swap(&mut entries, &mut self.entries);
        if entries.len() == CAPACITY {
            let _ = entries.pop_front();
        }
        let entry = LogEntry { seq, ts_ms, level: level.to_owned(), message };
        entries.push_back(entry);
        proof {
            let after = Log { entries, next_seq: (seq + 1) as u64 };
            assert(before.entries =~= raw.map_values(|e: LogEntry| e@));
            assert(after@.entries =~= before.with(ts_ms, level@, message@).entries);
            law_numbers_ascend(before, ts_ms, level@, message@);
        }
        *self = Log { entries, next_seq: seq + 1 };
    }

    /// How many messages are kept, and that they are in order.
    pub fn len(&self) -> (n: usize)
        ensures
            n == self@.entries.len(),
            self@.ordered(),
    {
        proof {
            use_type_invariant(self);
        }
        self.entries.len()
    }

    /// The message at a position.
    fn at(&self, i: usize) -> (r: LogEntry)
        requires
            i < self@.entries.len(),
        ensures
            r@ == self@.entries[i as int],
    {
        self.entries[i].clone()
    }
}

/// Records a message.
pub fn info(log: &mut Log, ts_ms: u64, message: String)
    requires
        old(log)@.next_seq < u64::MAX,
    ensures
        final(log)@ == old(log)@.with(ts_ms, "info"@, message@),
{
    log.push(ts_ms, "info", message);
}

/// Records a warning.
pub fn warn(log: &mut Log, ts_ms: u64, message: String)
    requires
        old(log)@.next_seq < u64::MAX,
    ensures
        final(log)@ == old(log)@.with(ts_ms, "warn"@, message@),
{
    log.push(ts_ms, "warn", message);
}

/// At most so many of the first.
pub open spec fn at_most<A>(s: Seq<A>, limit: nat) -> Seq<A> {
    if s.len() <= limit {
        s
    } else {
        s.take(limit as int)
    }
}

/// The first messages above a number, or else the newest ones; at most so many,
/// oldest first.
pub open spec fn tail_of(entries: Seq<LogEntryView>, after_seq: Option<u64>, limit: nat) -> Seq<
    LogEntryView,
> {
    match after_seq {
        Some(after) => at_most(entries.filter(|e: LogEntryView| e.seq > after), limit),
        None => if entries.len() <= limit {
            entries
        } else {
            entries.skip(entries.len() - limit)
        },
    }
}

/// The first messages above a number, or else the newest ones; at most so many,
/// oldest first.
pub fn tail(log: &Log, after_seq: Option<u64>, limit: usize) -> (r: Vec<LogEntry>)
    ensures
        r.deep_view() == tail_of(log@.entries, after_seq, limit as nat),
{
    let ghost es = log@.entries;
    let n: usize = log.len();
    let mut r: Vec<LogEntry> = Vec::new();
    match after_seq {
        Some(after) => {
            let ghost p = |e: LogEntryView| e.seq > after;
            let mut i: usize = 0;
            proof {
                assert(r.deep_view() =~= at_most(es.take(0).filter(p), limit as nat));
            }
            while i < n
                invariant
                    n == es.len(),
                    es == log@.entries,
                    i <= n,
                    p == (|e: LogEntryView| e.seq > after),
                    r.deep_view() == at_most(es.take(i as int).filter(p), limit as nat),
                decreases n - i,
            {
                let entry = log.at(i);
                let ghost before = r.deep_view();
                let ghost all = es.take(i as int).filter(p);
                proof {
                    assert(es.take(i + 1) =~= es.take(i as int).push(es[i as int]));
                    es.take(i as int).lemma_filter_push(es[i as int], p);
                }
                if entry.seq > after && r.len() < limit {
                    r.push(entry);
                    proof {
                        assert(r.deep_view() =~= before.push(entry@));
                    }
                } else if entry.seq > after {
                    proof {
                        assert(all.push(entry@).take(limit as int) =~= before);
                    }
                }
                i += 1;
            }
            proof {
                assert(es.take(n as int) =~= es);
            }
        },
        None => {
            let start: usize = if n <= limit {
                0
            } else {
                n - limit
            };
            let mut i: usize = start;
            proof {
                assert(r.deep_view() =~= es.subrange(start as int, start as int));
            }
            while i < n
                invariant
                    n == es.len(),
                    es == log@.entries,
                    start <= i <= n,
                    r.deep_view() == es.subrange(start as int, i as int),
                decreases n - i,
            {
                let entry = log.at(i);
                let ghost before = r.deep_view();
                r.push(entry);
                proof {
                    assert(r.deep_view() =~= before.push(entry@));
                    assert(es.subrange(start as int, i + 1) =~= before.push(es[i as int]));
                }
                i += 1;
            }
            proof {
                assert(es.subrange(start as int, n as int) =~= tail_of(es, after_seq, limit as nat));
            }
        },
    }
    r
}

/// Appending keeps the numbers in the order of the messages, and the number of
/// kept messages within bounds.
pub proof fn law_numbers_ascend(log: LogView, ts_ms: u64, level: Seq<char>, message: Seq<char>)
    requires
        log.ordered(),
        log.next_seq < u64::MAX,
    ensures
        log.with(ts_ms, level, message).ordered(),
{
    let after = log.with(ts_ms, level, message);
    let es = log.entries;
    assert forall|i: int, j: int|
        #![trigger after.entries[i], after.entries[j]]
        0 <= i < j < after.entries.len() implies after.entries[i].seq < after.entries[j].seq by {
        let shift: int = if es.len() == CAPACITY {
            1
        } else {
            0
        };
        assert(after.entries[i] == es[i + shift]);
        if j < after.entries.len() - 1 {
            assert(after.entries[j] == es[j + shift]);
        }
    }
    assert forall|i: int| 0 <= i < after.entries.len() implies (#[trigger] after.entries[i]).seq
        < after.next_seq by {
        let shift: int = if es.len() == CAPACITY {
            1
        } else {
            0
        };
        if i < after.entries.len() - 1 {
            assert(after.entries[i] == es[i + shift]);
        }
    }
}

/// Whoever asks for what comes after a number that was given out gets every
/// message that is appended later: none is passed over.
pub proof fn law_later_messages_are_not_passed_over(
    log: LogView,
    seen: u64,
    ts_ms: u64,
    level: Seq<char>,
    message: Seq<char>,
)
    requires
        log.ordered(),
        log.next_seq < u64::MAX,
        seen < log.next_seq,
    ensures
        tail_of(log.with(ts_ms, level, message).entries, Some(seen), CAPACITY as nat).contains(
            log.with(ts_ms, level, message).entries.last(),
        ),
{
    let after = log.with(ts_ms, level, message);
    let p = |e: LogEntryView| e.seq > seen;
    law_numbers_ascend(log, ts_ms, level, message);
    let last = after.entries.len() - 1;
    after.entries.lemma_filter_len(p);
    after.entries.lemma_filter_contains(p, last);
}

/// A message is appended as it was given, under the next number; the others stay,
/// but for the oldest of 2000.
pub proof fn law_message_is_appended(
    log: LogView,
    ts_ms: u64,
    level: Seq<char>,
    message: Seq<char>,
)
    requires
        log.ordered(),
        log.next_seq < u64::MAX,
    ensures
        ({
            let after = log.with(ts_ms, level, message);
            let newest = after.entries.last();
            &&& newest.seq == log.next_seq
            &&& newest.ts_ms == ts_ms
            &&& newest.level == level
            &&& newest.message == message
            &&& after.next_seq == log.next_seq + 1
            &&& log.entries.len() < 2000 ==> after.entries == log.entries.push(newest)
            &&& log.entries.len() == 2000 ==> after.entries == log.entries.skip(1).push(newest)
        }),
{
}

/// Without a number, the newest messages are given: the end of the log, as long as
/// there are messages and as many as are asked for.
pub proof fn law_newest_messages_are_given(entries: Seq<LogEntryView>, limit: nat)
    ensures
        ({
            let given = tail_of(entries, None, limit);
            &&& given.len() == if entries.len() < limit {
                entries.len()
            } else {
                limit
            }
            &&& entries == entries.take(entries.len() - given.len()) + given
        }),
{
    let given = tail_of(entries, None, limit);
    assert(entries =~= entries.take(entries.len() - given.len()) + given);
}

/// Behind a number, the messages that follow it are given in order; one that is
/// left out comes after all that are given, and only because as many are given as
/// are asked for.
pub proof fn law_messages_that_follow_are_given(log: LogView, after: u64, limit: nat)
    requires
        log.ordered(),
    ensures
        ({
            let given = tail_of(log.entries, Some(after), limit);
            &&& given.len() <= limit
            &&& forall|i: int|
                0 <= i < given.len() ==> log.entries.contains(#[trigger] given[i]) && given[i].seq
                    > after
            &&& forall|i: int, j: int|
                #![trigger given[i], given[j]]
                0 <= i < j < given.len() ==> given[i].seq < given[j].seq
            &&& forall|e: LogEntryView|
                #![trigger log.entries.contains(e)]
                log.entries.contains(e) && e.seq > after && !given.contains(e) ==> given.len()
                    == limit && forall|i: int|
                    0 <= i < given.len() ==> (#[trigger] given[i]).seq < e.seq
        }),
{
    let p = |e: LogEntryView| e.seq > after;
    let earlier = |a: LogEntryView, b: LogEntryView| a.seq < b.seq;
    let all = log.entries.filter(p);
    let given = tail_of(log.entries, Some(after), limit);
    lemma_filter_keeps_order(log.entries, p, earlier);
    assert forall|i: int, j: int| #![trigger all[i], all[j]] 0 <= i < j < all.len() implies all[i].seq
        < all[j].seq by {
        assert(earlier(all[i], all[j]));
    }
    assert forall|i: int| 0 <= i < given.len() implies #[trigger] given[i] == all[i] by {}
    assert forall|i: int| 0 <= i < given.len() implies log.entries.contains(#[trigger] given[i])
        && given[i].seq > after by {
        assert(all.contains(all[i]));
        lemma_filter_holds(log.entries, p, given[i]);
    }
    assert forall|e: LogEntryView|
        #![trigger log.entries.contains(e)]
        log.entries.contains(e) && e.seq > after && !given.contains(e) implies given.len() == limit
        && forall|i: int| 0 <= i < given.len() ==> (#[trigger] given[i]).seq < e.seq by {
        lemma_filter_holds(log.entries, p, e);
        let k = choose|k: int| 0 <= k < all.len() && all[k] == e;
        if k < given.len() {
            assert(given[k] == e);
        }
        assert forall|i: int| 0 <= i < given.len() implies (#[trigger] given[i]).seq < e.seq by {
            assert(all[i].seq < all[k].seq);
        }
    }
}

} // verus!
