use std::collections::VecDeque;
use vstd::prelude::*;

use crate::clock::now_millis;

verus! {

/// One captured line: its text and the capture time in milliseconds.
#[derive(Clone, Debug)]
pub struct LogLine {
    pub line: String,
    pub timestamp: i64,
}

impl LogLine {
    /// A copy of this line, text and capture time alike.
    pub fn duplicate(&self) -> (r: LogLine)
        ensures
            r == *self,
    {
        LogLine { line: self.line.clone(), timestamp: self.timestamp }
    }
}

/// Capture times never go down along the sequence.
pub open spec fn sorted(s: Seq<LogLine>) -> bool {
    forall|i: int, j: int| 0 <= i <= j < s.len() ==> s[i].timestamp <= s[j].timestamp
}

/// Index of the latest line of `s` captured at or before `t`, or -1 when
/// there is none.
pub open spec fn last_upto(s: Seq<LogLine>, t: int) -> int
    decreases s.len(),
{
    if s.len() == 0 {
        -1
    } else if s.last().timestamp <= t {
        s.len() - 1
    } else {
        last_upto(s.drop_last(), t)
    }
}

/// The capture time given to a line observed at `at` after the lines `s`:
/// a clock that stepped back is held at the last capture time.
pub open spec fn capture_time(s: Seq<LogLine>, at: i64) -> i64 {
    if s.len() > 0 && s.last().timestamp > at {
        s.last().timestamp
    } else {
        at
    }
}

/// `last_upto` splits `s` at `t`: after it every line is newer than `t`;
/// in a sorted `s` no line up to it is.
pub proof fn lemma_last_upto(s: Seq<LogLine>, t: int)
    ensures
        -1 <= last_upto(s, t) < s.len(),
        last_upto(s, t) >= 0 ==> s[last_upto(s, t)].timestamp <= t,
        forall|i: int| last_upto(s, t) < i < s.len() ==> s[i].timestamp > t,
        sorted(s) ==> forall|i: int| 0 <= i <= last_upto(s, t) ==> s[i].timestamp <= t,
    decreases s.len(),
{
    if s.len() > 0 && s.last().timestamp > t {
        let p = s.drop_last();
        lemma_last_upto(p, t);
        assert forall|i: int| last_upto(s, t) < i < s.len() implies s[i].timestamp > t by {
            if i < p.len() {
                assert(p[i] == s[i]);
            }
        }
    }
}

/// In a sorted sequence, any index that splits it at `t` is `last_upto`.
pub proof fn lemma_last_upto_unique(s: Seq<LogLine>, t: int, m: int)
    requires
        sorted(s),
        -1 <= m < s.len(),
        forall|i: int| 0 <= i <= m ==> s[i].timestamp <= t,
        forall|i: int| m < i < s.len() ==> s[i].timestamp > t,
    ensures
        last_upto(s, t) == m,
{
    lemma_last_upto(s, t);
    let l = last_upto(s, t);
    if l < m {
        assert(s[m].timestamp <= t);
    } else if l > m {
        assert(s[l].timestamp <= t);
    }
}

/// The buffer of lines captured from one source, oldest first.
#[derive(Debug)]
pub struct Log {
    lines: VecDeque<LogLine>,
}

impl View for Log {
    type V = Seq<LogLine>;

    closed spec fn view(&self) -> Seq<LogLine> {
        self.lines@
    }
}

impl Log {
    /// An empty buffer.
    pub fn new() -> (r: Log)
        ensures
            r@ == Seq::<LogLine>::empty(),
    {
        Log { lines: VecDeque::new() }
    }

    /// Number of buffered lines.
    pub fn len(&self) -> (r: usize)
        ensures
            r == self@.len(),
    {
        self.lines.len()
    }

    /// Appends `line` as observed at `at`; the capture time is `at`, or the
    /// previous capture time where the clock went back.
    pub fn add_line_at(&mut self, line: String, at: i64)
        ensures
            final(self)@ == old(self)@.push(
                LogLine { line, timestamp: capture_time(old(self)@, at) },
            ),
            sorted(old(self)@) ==> sorted(final(self)@),
    {
        let n = self.lines.len();
        let mut timestamp = at;
        if n > 0 {
            let last = self.lines[n - 1].timestamp;
            if last > at {
                timestamp = last;
            }
        }
        self.lines.push_back(LogLine { line, timestamp });
    }

    /// Appends `line` stamped with the current wall-clock time.
    pub fn add_line(&mut self, line: String)
        ensures
            exists|at: i64|
                at >= 0 && final(self)@ == old(self)@.push(
                    LogLine { line, timestamp: capture_time(old(self)@, at) },
                ),
            sorted(old(self)@) ==> sorted(final(self)@),
    {
        let at = now_millis();
        self.add_line_at(line, at);
    }

    /// Capture time of the oldest buffered line, if any.
    pub fn get_start_time(&self) -> (r: Option<i64>)
        ensures
            self@.len() == 0 ==> r is None,
            self@.len() > 0 ==> r == Some(self@[0].timestamp),
    {
        if self.lines.len() > 0 {
            Some(self.lines[0].timestamp)
        } else {
            None
        }
    }

    /// Capture time of the newest buffered line, if any.
    pub fn get_end_time(&self) -> (r: Option<i64>)
        ensures
            self@.len() == 0 ==> r is None,
            self@.len() > 0 ==> r == Some(self@.last().timestamp),
    {
        let n = self.lines.len();
        if n > 0 {
            Some(self.lines[n - 1].timestamp)
        } else {
            None
        }
    }

    /// Removes every leading line captured at or before `t` and returns the
    /// last one removed. On a sorted buffer these are exactly the lines up to
    /// `last_upto`.
    pub fn drain_upto(&mut self, t: i64) -> (r: Option<LogLine>)
        requires
            sorted(old(self)@),
        ensures
            final(self)@ == old(self)@.skip(last_upto(old(self)@, t as int) + 1),
            last_upto(old(self)@, t as int) < 0 ==> r is None,
            last_upto(old(self)@, t as int) >= 0 ==> r == Some(
                old(self)@[last_upto(old(self)@, t as int)],
            ),
            sorted(final(self)@),
    {
        let ghost s = self.lines@;
        let mut taken: Option<LogLine> = None;
        let ghost mut d: int = 0;
        loop
            invariant
                sorted(s),
                0 <= d <= s.len(),
                self.lines@ == s.skip(d),
                forall|i: int| 0 <= i < d ==> s[i].timestamp <= t,
                d == 0 ==> taken is None,
                d > 0 ==> taken == Some(s[d - 1]),
            ensures
                forall|i: int| d <= i < s.len() ==> s[i].timestamp > t,
            decreases s.len() - d,
        {
            if self.lines.len() == 0 {
                break;
            }
            if self.lines[0].timestamp > t {
                proof {
                    assert(s[d].timestamp > t);
                    assert forall|i: int| d < i < s.len() implies s[i].timestamp > t by {
                        assert(s[d].timestamp <= s[i].timestamp);
                    }
                }
                break;
            }
            taken = self.lines.pop_front();
            proof {
                d = d + 1;
            }
        }
        proof {
            lemma_last_upto_unique(s, t as int, d - 1);
        }
        taken
    }
}

} // verus!
