use vstd::prelude::*;

use crate::text::{chars_of, push_char};

verus! {

/// Pacing for demo replay: send `batch` lines, then sleep `delay_ms`. Sleeps stay
/// coarse enough for coarse timers at high rates.
#[derive(Clone, Copy, PartialEq, Eq, Structural, Debug)]
pub struct Pace {
    pub batch: u32,
    pub delay_ms: u64,
}

/// The pacing for a replay rate of `rate` lines per second (at least one).
pub open spec fn pace_of(rate: u32) -> Pace {
    let r: nat = if rate == 0 { 1 } else { rate as nat };
    if r <= 100 {
        Pace { batch: 1, delay_ms: (1000nat / r) as u64 }
    } else {
        Pace { batch: (r / 100nat) as u32, delay_ms: 10 }
    }
}

/// The pacing for a replay rate of `rate` lines per second.
pub fn pace(rate: u32) -> (p: Pace)
    ensures
        p == pace_of(rate),
{
    let r = if rate == 0 { 1 } else { rate };
    if r <= 100 {
        Pace { batch: 1, delay_ms: 1000 / (r as u64) }
    } else {
        Pace { batch: r / 100, delay_ms: 10 }
    }
}

/// The byte-order mark that some editors and shells put before the first line.
pub open spec fn bom() -> char {
    '\u{feff}'
}

/// `s` without its leading byte-order marks.
pub open spec fn strip_boms(s: Seq<char>) -> Seq<char>
    decreases s.len(),
{
    if s.len() > 0 && s[0] == bom() {
        strip_boms(s.drop_first())
    } else {
        s
    }
}

/// `s` without its trailing `\r` and `\n` characters.
pub open spec fn trim_newlines(s: Seq<char>) -> Seq<char>
    decreases s.len(),
{
    if s.len() > 0 && (s.last() == '\r' || s.last() == '\n') {
        trim_newlines(s.drop_last())
    } else {
        s
    }
}

/// A line as it is handed on: line endings trimmed, and on the first line of the
/// input the byte-order marks removed too (they would make it unparseable as JSON).
pub open spec fn cleaned(s: Seq<char>, first: bool) -> Seq<char> {
    trim_newlines(if first { strip_boms(s) } else { s })
}

/// Pacing never stalls the reader and never sleeps below a coarse timer's
/// granularity: every batch holds a line, and every sleep lasts at least 10 ms.
pub proof fn lemma_pace_is_sound(rate: u32)
    ensures
        pace_of(rate).batch >= 1,
        pace_of(rate).delay_ms >= 10,
{
    let r: nat = if rate == 0 { 1 } else { rate as nat };
    if r <= 100 {
        assert(1000nat / r >= 10 && 1000nat / r <= 1000) by (nonlinear_arith)
            requires
                1 <= r <= 100,
        ;
    }
}

proof fn lemma_trimmed_end(s: Seq<char>)
    ensures
        trim_newlines(s).len() == 0 || (trim_newlines(s).last() != '\r' && trim_newlines(s).last() != '\n'),
        trim_newlines(s).len() <= s.len(),
        trim_newlines(s) == s.take(trim_newlines(s).len() as int),
    decreases s.len(),
{
    if s.len() > 0 && (s.last() == '\r' || s.last() == '\n') {
        lemma_trimmed_end(s.drop_last());
        assert(s.drop_last().take(trim_newlines(s).len() as int) =~= s.take(trim_newlines(s).len() as int));
    } else {
        assert(s.take(s.len() as int) =~= s);
    }
}

/// A line handed on never ends in `\r` or `\n`, and what is left of it is a prefix
/// of the line (after the byte-order marks, on the first line).
pub proof fn lemma_cleaned_line(s: Seq<char>, first: bool)
    ensures
        cleaned(s, first).len() == 0 || (cleaned(s, first).last() != '\r' && cleaned(s, first).last() != '\n'),
        ({
            let body = if first { strip_boms(s) } else { s };
            cleaned(s, first) == body.take(cleaned(s, first).len() as int)
        }),
{
    lemma_trimmed_end(if first { strip_boms(s) } else { s });
}

/// What the reader does when it reaches the end of its input.
#[derive(Clone, Copy, PartialEq, Eq, Structural, Debug)]
pub enum AtEnd {
    /// Wait this long, then look for more lines.
    Poll { delay_ms: u64 },
    /// The input is done.
    Stop,
}

/// At the end of the input, a followed plain file is polled every 200 ms; anything
/// else (no follow, or a gzip stream) is done.
pub fn at_end(follow: bool, is_gz: bool) -> (r: AtEnd)
    ensures
        r == (if follow && !is_gz { AtEnd::Poll { delay_ms: 200 } } else { AtEnd::Stop }),
{
    if follow && !is_gz {
        AtEnd::Poll { delay_ms: 200 }
    } else {
        AtEnd::Stop
    }
}

/// The reader's state between lines: whether the next line is the first, and the
/// pacing with the count of lines sent in the current batch.
pub struct Feed {
    first: bool,
    pace: Option<Pace>,
    sent_in_batch: u32,
}

/// A feed's state as values.
pub struct FeedView {
    pub first: bool,
    pub pace: Option<Pace>,
    pub sent_in_batch: nat,
}

impl Feed {
    #[verifier::type_invariant]
    spec fn counts_within_batch(self) -> bool {
        match self.pace {
            Some(p) => p.batch >= 1 && self.sent_in_batch < p.batch,
            None => self.sent_in_batch == 0,
        }
    }

    pub closed spec fn view(&self) -> FeedView {
        FeedView { first: self.first, pace: self.pace, sent_in_batch: self.sent_in_batch as nat }
    }

    /// A feed before its first line, paced when a replay `rate` is given.
    pub fn new(rate: Option<u32>) -> (f: Feed)
        ensures
            f@ == (FeedView {
                first: true,
                pace: match rate {
                    Some(r) => Some(pace_of(r)),
                    None => None,
                },
                sent_in_batch: 0,
            }),
    {
        let p = match rate {
            Some(r) => Some(pace(r)),
            None => None,
        };
        Feed { first: true, pace: p, sent_in_batch: 0 }
    }

    /// The text to send for a line read from the input (see `cleaned`).
    pub fn line(&mut self, raw: &str) -> (out: String)
        ensures
            out@ == cleaned(raw@, old(self)@.first),
            final(self)@ == (FeedView { first: false, ..old(self)@ }),
    {
        proof {
            use_type_invariant(&*self);
        }
        let first = self.first;
        self.first = false;
        let cs = chars_of(raw);
        let n = cs.len();
        let mut start: usize = 0;
        assert(cs@.subrange(0, n as int) =~= cs@);
        if first {
            while start < n && cs[start] == '\u{feff}'
                invariant
                    n == cs@.len(),
                    start <= n,
                    strip_boms(cs@) == strip_boms(cs@.subrange(start as int, n as int)),
                decreases n - start,
            {
                assert(cs@.subrange(start as int, n as int).drop_first() =~= cs@.subrange(start + 1, n as int));
                start = start + 1;
            }
            assert(strip_boms(cs@.subrange(start as int, n as int)) == cs@.subrange(start as int, n as int));
        }
        let mut end: usize = n;
        while end > start && (cs[end - 1] == '\r' || cs[end - 1] == '\n')
            invariant
                n == cs@.len(),
                start <= end <= n,
                trim_newlines(cs@.subrange(start as int, n as int)) == trim_newlines(cs@.subrange(start as int, end as int)),
            decreases end,
        {
            assert(cs@.subrange(start as int, end as int).drop_last() =~= cs@.subrange(start as int, end - 1));
            end = end - 1;
        }
        let mut out = String::new();
        let mut i = start;
        while i < end
            invariant
                n == cs@.len(),
                start <= i <= end <= n,
                out@ =~= cs@.subrange(start as int, i as int),
            decreases end - i,
        {
            push_char(&mut out, cs[i]);
            i = i + 1;
        }
        proof {
            let rest = cs@.subrange(start as int, n as int);
            assert(cleaned(raw@, first) == trim_newlines(rest));
            assert(trim_newlines(cs@.subrange(start as int, end as int)) == cs@.subrange(start as int, end as int));
        }
        out
    }

    /// Records that a line was sent; says how long to sleep (in ms) when it
    /// completed a batch.
    pub fn sent(&mut self) -> (sleep: Option<u64>)
        ensures
            match old(self)@.pace {
                Some(p) => if old(self)@.sent_in_batch + 1 >= p.batch {
                    sleep == Some(p.delay_ms) && final(self)@ == (FeedView { sent_in_batch: 0, ..old(self)@ })
                } else {
                    sleep is None && final(self)@ == (FeedView {
                        sent_in_batch: old(self)@.sent_in_batch + 1,
                        ..old(self)@
                    })
                },
                None => sleep is None && final(self)@ == old(self)@,
            },
    {
        proof {
            use_type_invariant(&*self);
        }
        match self.pace {
            Some(p) => {
                let count = self.sent_in_batch + 1;
                if count >= p.batch {
                    self.sent_in_batch = 0;
                    Some(p.delay_ms)
                } else {
                    self.sent_in_batch = count;
                    None
                }
            },
            None => None,
        }
    }
}

} // verus!
