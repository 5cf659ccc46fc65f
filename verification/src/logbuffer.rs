//! A bounded log read from a cursor: a pipeline stage's output, as the server
//! streams it and the pipeline view reads it back.

use crate::api::LogSlice;
use crate::strings::views;
use std::collections::VecDeque;
use vstd::prelude::*;

verus! {

/// Keep the log bounded; `analyse` over a large corpus prints thousands of
/// lines and nobody scrolls back that far.
pub const MAX_LOG_LINES: usize = 400;

/// A bounded log that can be read from a cursor. The server fills one as a
/// stage runs; a client fills its own from the stream. Both are read the same
/// way.
pub struct LogBuffer {
    lines: VecDeque<String>,
    /// How many lines have ever been pushed. Counting rather than indexing
    /// means a cursor taken before an overflow still resolves.
    pushed: u64,
}

/// What a log holds: the lines retained, and how many were ever pushed.
#[verifier::ext_equal]
pub struct Logged {
    pub lines: Seq<Seq<char>>,
    pub pushed: u64,
}

/// The last `n` of `lines`, or all of them where there are fewer.
pub open spec fn tail(lines: Seq<Seq<char>>, n: int) -> Seq<Seq<char>> {
    if lines.len() <= n {
        lines
    } else {
        lines.skip(lines.len() - n)
    }
}

impl Logged {
    pub open spec fn bounded(self) -> bool {
        self.lines.len() <= MAX_LOG_LINES
    }

    /// One more line. The count starts over once it has run through every
    /// number.
    pub open spec fn with(self, line: Seq<char>) -> Logged {
        Logged {
            lines: tail(self.lines.push(line), MAX_LOG_LINES as int),
            pushed: if self.pushed == u64::MAX {
                0
            } else {
                (self.pushed + 1) as u64
            },
        }
    }

    /// More lines, one after another.
    pub open spec fn with_all(self, more: Seq<Seq<char>>) -> Logged
        decreases more.len(),
    {
        if more.len() == 0 {
            self
        } else {
            self.with_all(more.drop_last()).with(more.last())
        }
    }

    /// `pushed` deliberately does not reset: an old cursor should see the
    /// clear as "nothing new", not a full replay.
    pub open spec fn cleared(self) -> Logged {
        Logged { lines: Seq::empty(), pushed: self.pushed }
    }

    /// The number of the first line still retained.
    pub open spec fn first_retained(self) -> int {
        if self.pushed >= self.lines.len() {
            self.pushed - self.lines.len()
        } else {
            0
        }
    }

    /// What a reader whose cursor is `since` has not seen.
    pub open spec fn unseen(self, since: u64) -> Seq<Seq<char>> {
        let skip = if since >= self.first_retained() {
            since - self.first_retained()
        } else {
            0
        };
        if skip <= self.lines.len() {
            self.lines.skip(skip)
        } else {
            Seq::empty()
        }
    }
}

impl LogBuffer {
    pub closed spec fn view(&self) -> Logged {
        Logged { lines: views(self.lines@), pushed: self.pushed }
    }

    pub fn new() -> (log: Self)
        ensures
            log@ == (Logged { lines: Seq::empty(), pushed: 0 }),
    {
        let log = LogBuffer { lines: VecDeque::new(), pushed: 0 };
        assert(views(log.lines@) =~= Seq::empty());
        log
    }

    pub fn push(&mut self, line: String)
        requires
            old(self)@.bounded(),
        ensures
            final(self)@ == old(self)@.with(line@),
            final(self)@.bounded(),
    {
        let ghost before = self.lines@;
        self.lines.push_back(line);
        assert(views(self.lines@) =~= views(before).push(line@));
        if self.lines.len() > MAX_LOG_LINES {
            let ghost full = self.lines@;
            let gone: Option<String> = self.lines.pop_front();
            assert(views(self.lines@) =~= views(full).skip(1));
        }
        self.pushed = self.pushed.wrapping_add(1);
        assert(self@ =~= old(self)@.with(line@));
    }

    pub fn clear(&mut self)
        ensures
            final(self)@ == old(self)@.cleared(),
    {
        self.lines.clear();
        assert(views(self.lines@) =~= Seq::empty());
    }

    pub fn cursor(&self) -> (cursor: u64)
        ensures
            cursor == self@.pushed,
    {
        self.pushed
    }

    fn lines_from(&self, from: usize) -> (out: Vec<String>)
        ensures
            views(out@) == (if from <= self@.lines.len() {
                self@.lines.skip(from as int)
            } else {
                Seq::empty()
            }),
    {
        let mut out: Vec<String> = Vec::new();
        let mut i: usize = from;
        assert(views(out@) =~= Seq::empty());
        while i < self.lines.len()
            invariant
                from <= i,
                i <= self.lines@.len() || i == from,
                views(out@) == (if from <= self.lines@.len() {
                    views(self.lines@).subrange(from as int, i as int)
                } else {
                    Seq::empty()
                }),
            decreases self.lines@.len() - i,
        {
            let ghost earlier = out@;
            out.push(self.lines[i].clone());
            assert(views(out@) =~= views(earlier).push(self.lines@[i as int]@));
            assert(views(self.lines@).subrange(from as int, i + 1) =~= views(self.lines@).subrange(
                from as int,
                i as int,
            ).push(self.lines@[i as int]@));
            i = i + 1;
        }
        proof {
            if from <= self.lines@.len() {
                assert(views(self.lines@).subrange(from as int, self.lines@.len() as int) =~= views(
                    self.lines@,
                ).skip(from as int));
            }
        }
        out
    }

    /// Everything currently retained. The views mirror this rather than
    /// accumulating their own copy, so a reconnecting stream does not show the
    /// tail twice.
    pub fn all(&self) -> (lines: Vec<String>)
        ensures
            views(lines@) == self@.lines,
    {
        let lines = self.lines_from(0);
        assert(self@.lines.skip(0) =~= self@.lines);
        lines
    }

    /// Everything pushed since `since`, and the cursor to pass next time.
    pub fn since(&self, since: u64) -> (slice: LogSlice)
        requires
            self@.bounded(),
        ensures
            views(slice.lines@) == self@.unseen(since),
            slice.cursor == self@.pushed,
    {
        let retained: u64 = self.lines.len() as u64;
        let first: u64 = if self.pushed >= retained {
            self.pushed - retained
        } else {
            0
        };
        let start: u64 = if since >= first {
            since
        } else {
            first
        };
        let skip: u64 = start - first;
        let lines = if skip <= retained {
            self.lines_from(skip as usize)
        } else {
            let none: Vec<String> = Vec::new();
            assert(views(none@) =~= Seq::empty());
            none
        };
        LogSlice { lines, cursor: self.pushed }
    }
}

impl Default for LogBuffer {
    fn default() -> (log: Self)
        ensures
            log@ == (Logged { lines: Seq::empty(), pushed: 0 }),
    {
        LogBuffer::new()
    }
}

// --------------------------------------------------------------------- laws

proof fn lemma_growth(log: Logged, more: Seq<Seq<char>>)
    requires
        log.bounded(),
        log.lines.len() <= log.pushed,
        log.pushed + more.len() <= u64::MAX,
    ensures
        log.with_all(more).lines == tail(log.lines + more, MAX_LOG_LINES as int),
        log.with_all(more).pushed == log.pushed + more.len(),
        log.with_all(more).bounded(),
    decreases more.len(),
{
    if more.len() == 0 {
        assert(log.lines + more =~= log.lines);
    } else {
        let fewer = more.drop_last();
        lemma_growth(log, fewer);
        assert(log.lines + more =~= (log.lines + fewer).push(more.last()));
        assert(log.with_all(more).lines =~= tail(log.lines + more, MAX_LOG_LINES as int));
    }
}

/// Reading from a cursor gives exactly what was pushed after it was taken, as
/// far back as is retained, whatever has been pushed out since.
pub proof fn a_cursor_sees_what_came_after(log: Logged, more: Seq<Seq<char>>)
    requires
        log.bounded(),
        log.lines.len() <= log.pushed,
        log.pushed + more.len() <= u64::MAX,
    ensures
        log.with_all(more).unseen(log.pushed) == tail(more, MAX_LOG_LINES as int),
{
    lemma_growth(log, more);
    let now = log.with_all(more);
    let all = log.lines + more;
    if more.len() >= MAX_LOG_LINES {
        assert(now.lines =~= tail(more, MAX_LOG_LINES as int));
        assert(now.unseen(log.pushed) =~= now.lines.skip(0));
    } else {
        assert(now.unseen(log.pushed) =~= more);
    }
}

/// After a clear every cursor taken so far reads as nothing new.
pub proof fn a_clear_reads_as_nothing_new(log: Logged, since: u64)
    ensures
        log.cleared().unseen(since).len() == 0,
        log.cleared().pushed == log.pushed,
{
}

/// However much is pushed, no more than `MAX_LOG_LINES` lines are held.
pub proof fn a_log_stays_bounded(log: Logged, more: Seq<Seq<char>>)
    requires
        log.bounded(),
    ensures
        log.with_all(more).bounded(),
    decreases more.len(),
{
    if more.len() > 0 {
        a_log_stays_bounded(log, more.drop_last());
    }
}

} // verus!
