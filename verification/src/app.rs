use vstd::prelude::*;

use std::collections::VecDeque;

use crate::config::RuleSet;
use crate::detail::{detail_lines, detail_title, max_scroll_of, Detail, DetailView};
use crate::json::{json_parse, parse_json, Json};

verus! {

/// One log line: the raw text, plus its parsed form when it is NDJSON.
pub struct LogLine {
    pub raw: String,
    pub json: Option<Json>,
}

/// Only objects and arrays count as structured.
pub open spec fn is_structured(v: Json) -> bool {
    v is Object || v is Array
}

impl LogLine {
    /// A line of input: its JSON value when the text is one JSON object or array.
    pub fn parse(raw: String) -> (l: LogLine)
        ensures
            l == parsed_line(raw, json_parse(raw@)),
    {
        let parsed = parse_json(raw.as_str());
        LogLine::from_parsed(raw, parsed)
    }

    /// A line and its parse: `parsed` is the JSON value the text parses to, if any.
    /// Only objects/arrays count as structured; a bare `42` or `"hi"` line is valid
    /// JSON but still reads as plain text.
    pub fn from_parsed(raw: String, parsed: Option<Json>) -> (l: LogLine)
        ensures
            l == parsed_line(raw, parsed),
    {
        let json = match parsed {
            Some(v) => {
                let keep = match &v {
                    Json::Object(_) => true,
                    Json::Array(_) => true,
                    _ => false,
                };
                if keep {
                    Some(v)
                } else {
                    None
                }
            },
            None => None,
        };
        LogLine { raw, json }
    }
}


/// The line `LogLine::from_parsed` makes of a text and its parse.
pub open spec fn parsed_line(raw: String, parsed: Option<Json>) -> LogLine {
    LogLine {
        raw,
        json: match parsed {
            Some(v) => if is_structured(v) {
                Some(v)
            } else {
                None
            },
            None => None,
        },
    }
}

pub struct App {
    pub lines: VecDeque<LogLine>,
    /// Max lines kept in memory; oldest are evicted past this.
    pub cap: usize,
    /// Lines evicted from the front of the buffer so far.
    pub dropped: u64,
    /// When true, the view is pinned to the newest line.
    pub follow: bool,
    /// Offset of the bottom visible line, in lines from the newest.
    pub scroll: usize,
    /// Offset of the selected line, in lines from the newest (browse mode).
    pub cursor: usize,
    /// Height of the log viewport, updated each frame before input handling.
    pub viewport_h: usize,
    /// Expanded view of one record, when open.
    pub detail: Option<Detail>,
    /// Display rules from --format or the config file.
    pub rules: RuleSet,
    /// Show raw JSON even when rules exist (toggled with `r`).
    pub raw_mode: bool,
    /// Where the rules came from, for the status bar (file name or --format).
    pub config_name: Option<String>,
    /// Error from the last live config reload; the old rules stay active.
    pub config_error: Option<String>,
    /// The input stream reached EOF (reader thread hung up).
    pub ended: bool,
    /// Display name of the input source for the status bar.
    pub source: String,
    pub quit: bool,
}

/// The smaller of two integers.
pub open spec fn min(a: int, b: int) -> int {
    if a <= b {
        a
    } else {
        b
    }
}

/// The scroll offset that keeps the cursor inside the visible window
/// `[scroll, scroll + height)`, clamped to the scrollable range.
pub open spec fn visible_scroll(scroll: int, cursor: int, viewport_h: nat, len: nat) -> int {
    let h: int = if viewport_h > 0 { viewport_h as int } else { 1 };
    let s = if cursor < scroll {
        cursor
    } else if cursor >= scroll + h {
        cursor + 1 - h
    } else {
        scroll
    };
    min(s, max_scroll_of(len, viewport_h) as int)
}

/// The index in `lines` of the line under the cursor, if the cursor is on one.
pub open spec fn selected_index(len: nat, cursor: nat) -> Option<int> {
    if cursor < len {
        Some(len - 1 - cursor)
    } else {
        None
    }
}

/// `f` is `o` after `push_line(line)`: the line is appended, the oldest line
/// is evicted past the cap, and while browsing the view and selection move up one
/// line so they stay on the same content.
pub open spec fn pushed(o: App, f: App, line: LogLine) -> bool {
    let l1 = o.lines@.push(line);
    let evicted = l1.len() > o.cap;
    &&& f.lines@ == (if evicted { l1.drop_first() } else { l1 })
    &&& f.dropped == (if evicted { o.dropped + 1 } else { o.dropped as int })
    &&& f.scroll == (if o.follow {
        o.scroll as int
    } else {
        min(o.scroll + 1, max_scroll_of(f.lines@.len(), o.viewport_h as nat) as int)
    })
    &&& f.cursor == (if o.follow { o.cursor as int } else { min(o.cursor + 1, f.lines@.len() - 1) })
    &&& f == App { lines: f.lines, dropped: f.dropped, scroll: f.scroll, cursor: f.cursor, ..o }
}

/// `f` is `o` after `open_detail()`: when the cursor is on a line, the detail view
/// shows that line, titled with its number in the whole stream.
pub open spec fn opened_detail(o: App, f: App) -> bool {
    match selected_index(o.lines@.len(), o.cursor as nat) {
        Some(i) => {
            &&& f.detail matches Some(d) && d@ == (DetailView {
                lines: detail_lines(o.lines@[i]),
                scroll: 0,
                viewport_h: 0,
                title: detail_title(o.lines@[i], (o.dropped + i + 1) as u64),
            })
            &&& f == App { detail: f.detail, ..o }
        },
        None => f == o,
    }
}

impl App {
    pub fn new(cap: usize, source: String) -> (app: App)
        ensures
            app.lines@.len() == 0,
            app.cap == cap,
            app.dropped == 0,
            app.follow,
            app.scroll == 0,
            app.cursor == 0,
            app.viewport_h == 0,
            app.detail is None,
            app.rules@.rules.len() == 0,
            app.rules@.fallback is None,
            !app.raw_mode,
            app.config_name is None,
            app.config_error is None,
            !app.ended,
            app.source == source,
            !app.quit,
    {
        App {
            lines: VecDeque::new(),
            cap,
            dropped: 0,
            follow: true,
            scroll: 0,
            cursor: 0,
            viewport_h: 0,
            detail: None,
            rules: RuleSet::new(),
            raw_mode: false,
            config_name: None,
            config_error: None,
            ended: false,
            source,
            quit: false,
        }
    }

    fn max_scroll(&self) -> (m: usize)
        ensures
            m == max_scroll_of(self.lines@.len(), self.viewport_h as nat),
    {
        let h = if self.viewport_h > 0 { self.viewport_h } else { 1 };
        let n = self.lines.len();
        if n > h { n - h } else { 0 }
    }

    /// Appends a line of input, evicting the oldest past `cap`. While browsing, the
    /// view and selection stay on the same content.
    pub fn push(&mut self, raw: String)
        requires
            old(self).lines@.len() + 1 > old(self).cap ==> old(self).dropped < u64::MAX,
            !old(self).follow ==> old(self).cap > 0 || old(self).lines@.len() > 0,
        ensures
            pushed(*old(self), *final(self), parsed_line(raw, json_parse(raw@))),
    {
        let line = LogLine::parse(raw);
        self.push_line(line);
    }

    /// Appends a parsed line (see `push`).
    pub fn push_line(&mut self, line: LogLine)
        requires
            old(self).lines@.len() + 1 > old(self).cap ==> old(self).dropped < u64::MAX,
            !old(self).follow ==> old(self).cap > 0 || old(self).lines@.len() > 0,
        ensures
            pushed(*old(self), *final(self), line),
    {
        self.lines.push_back(line);
        if self.lines.len() > self.cap {
            let _ = self.lines.pop_front();
            self.dropped = self.dropped + 1;
        }
        if !self.follow {
            let m = self.max_scroll();
            self.scroll = if self.scroll < m { self.scroll + 1 } else { m };
            let last = self.lines.len() - 1;
            self.cursor = if self.cursor < last { self.cursor + 1 } else { last };
        }
    }

    /// The line under the cursor (the newest line while following).
    pub fn selected(&self) -> (r: Option<&LogLine>)
        ensures
            match selected_index(self.lines@.len(), self.cursor as nat) {
                Some(i) => r == Some(&self.lines@[i]),
                None => r is None,
            },
    {
        let n = self.lines.len();
        if self.cursor < n {
            Some(&self.lines[n - 1 - self.cursor])
        } else {
            None
        }
    }

    /// Opens the detail view of the line under the cursor, numbered by its position
    /// in the whole stream.
    pub fn open_detail(&mut self)
        requires
            old(self).dropped + old(self).lines@.len() <= u64::MAX,
        ensures
            opened_detail(*old(self), *final(self)),
    {
        let n = self.lines.len();
        if self.cursor < n {
            let idx = n - 1 - self.cursor;
            let global = self.dropped + idx as u64 + 1;
            let d = Detail::new(&self.lines[idx], global);
            self.detail = Some(d);
        }
    }

    /// Moves the cursor up (older) by `amount`, leaving follow mode.
    pub fn scroll_up(&mut self, amount: usize)
        ensures
            *final(self) == after_scroll_up(*old(self), amount as nat),
    {
        self.follow = false;
        let max = if self.lines.len() > 0 { self.lines.len() - 1 } else { 0 };
        self.cursor = if self.cursor >= max {
            max
        } else if amount < max - self.cursor {
            self.cursor + amount
        } else {
            max
        };
        self.ensure_cursor_visible();
    }

    /// Moves the cursor down (newer) by `amount`; reaching the bottom re-engages
    /// follow mode.
    pub fn scroll_down(&mut self, amount: usize)
        ensures
            *final(self) == after_scroll_down(*old(self), amount as nat),
    {
        self.cursor = self.cursor.saturating_sub(amount);
        if self.cursor == 0 {
            self.follow = true;
        }
        self.ensure_cursor_visible();
    }

    /// Jumps to the oldest line, leaving follow mode.
    pub fn scroll_to_top(&mut self)
        ensures
            *final(self) == after_scroll_to_top(*old(self)),
    {
        self.follow = false;
        self.cursor = if self.lines.len() > 0 { self.lines.len() - 1 } else { 0 };
        self.ensure_cursor_visible();
    }

    /// Takes a freshly loaded rules file: its rules replace the current ones, or, when
    /// it failed to load, the error is kept for display and the old rules stay active.
    pub fn apply_config(&mut self, loaded: Result<RuleSet, String>)
        ensures
            match loaded {
                Ok(r) => *final(self) == App { rules: r, config_error: None, ..*old(self) },
                Err(e) => *final(self) == App { config_error: Some(e), ..*old(self) },
            },
    {
        match loaded {
            Ok(r) => {
                self.rules = r;
                self.config_error = None;
            },
            Err(e) => {
                self.config_error = Some(e);
            },
        }
    }

    /// Back to following the newest line.
    pub fn resume_follow(&mut self)
        ensures
            *final(self) == after_resume_follow(*old(self)),
    {
        self.follow = true;
        self.cursor = 0;
        self.scroll = 0;
    }

    /// Keep the cursor inside the visible window [scroll, scroll + height).
    fn ensure_cursor_visible(&mut self)
        ensures
            *final(self) == with_cursor_visible(*old(self)),
    {
        let h = if self.viewport_h > 0 { self.viewport_h } else { 1 };
        if self.cursor < self.scroll {
            self.scroll = self.cursor;
        } else if self.cursor - self.scroll >= h {
            self.scroll = self.cursor - h + 1;
        }
        let m = self.max_scroll();
        if self.scroll > m {
            self.scroll = m;
        }
    }
}

/// The oldest cursor position: the first line of the buffer, or 0 when it is empty.
pub open spec fn cursor_max(len: nat) -> nat {
    if len > 0 { (len - 1) as nat } else { 0 }
}

/// The state with its scroll offset moved so that the cursor is visible.
pub open spec fn with_cursor_visible(a: App) -> App {
    App {
        scroll: visible_scroll(a.scroll as int, a.cursor as int, a.viewport_h as nat, a.lines@.len()) as usize,
        ..a
    }
}

/// The state after `scroll_up(amount)`.
pub open spec fn after_scroll_up(a: App, amount: nat) -> App {
    with_cursor_visible(App {
        follow: false,
        cursor: min(a.cursor + amount, cursor_max(a.lines@.len()) as int) as usize,
        ..a
    })
}

/// The state after `scroll_down(amount)`.
pub open spec fn after_scroll_down(a: App, amount: nat) -> App {
    let c: int = if a.cursor >= amount { a.cursor - amount } else { 0 };
    with_cursor_visible(App { follow: a.follow || c == 0, cursor: c as usize, ..a })
}

/// The state after `scroll_to_top()`.
pub open spec fn after_scroll_to_top(a: App) -> App {
    with_cursor_visible(App { follow: false, cursor: cursor_max(a.lines@.len()) as usize, ..a })
}

/// The state after `resume_follow()`.
pub open spec fn after_resume_follow(a: App) -> App {
    App { follow: true, cursor: 0, scroll: 0, ..a }
}

/// Every pushed line is either kept or counted as scrolled off, and (with room for
/// at least one line) the newest buffered line is the one just pushed.
pub proof fn lemma_push_counts_every_line(o: App, f: App, line: LogLine)
    requires
        pushed(o, f, line),
    ensures
        f.dropped + f.lines@.len() == o.dropped + o.lines@.len() + 1,
        o.cap > 0 ==> f.lines@.last() == line,
{
}

/// An open detail view is a snapshot: new lines, and the evictions they cause,
/// leave it as it was, along with everything but the buffer and the view offsets.
pub proof fn lemma_push_keeps_detail(o: App, f: App, line: LogLine)
    requires
        pushed(o, f, line),
    ensures
        f.detail == o.detail,
        f.follow == o.follow,
        f.cap == o.cap,
        f.viewport_h == o.viewport_h,
        f.quit == o.quit,
{
}

/// The buffer never grows past its cap: a push onto a buffer within the cap leaves
/// it within the cap.
pub proof fn lemma_push_within_cap(o: App, f: App, line: LogLine)
    requires
        pushed(o, f, line),
        o.lines@.len() <= o.cap,
    ensures
        f.lines@.len() <= f.cap,
{
}

/// While browsing, the selection stays on the same line as new lines arrive, unless
/// that line is the oldest one and it is evicted.
pub proof fn lemma_push_keeps_selection(o: App, f: App, line: LogLine)
    requires
        pushed(o, f, line),
        !o.follow,
        o.cursor < o.lines@.len(),
        o.lines@.len() + 1 <= o.cap || o.cursor + 1 < o.lines@.len(),
    ensures
        selected_index(f.lines@.len(), f.cursor as nat) matches Some(j)
            && f.lines@[j] == o.lines@[o.lines@.len() - 1 - o.cursor],
{
}

/// The cursor lies in the visible window `[scroll, scroll + height)`.
pub open spec fn cursor_visible(a: App) -> bool {
    let h: int = if a.viewport_h > 0 { a.viewport_h as int } else { 1 };
    a.scroll <= a.cursor < a.scroll + h
}

/// A cursor on a line (or at 0 in an empty buffer) is visible once the scroll
/// offset has been adjusted for it.
pub proof fn lemma_visible_scroll_shows_cursor(a: App)
    requires
        a.cursor <= cursor_max(a.lines@.len()),
    ensures
        cursor_visible(with_cursor_visible(a)),
{
}

/// After any move of the cursor, the cursor is on screen: moving up or to the top
/// always, moving down from any cursor on a line.
pub proof fn lemma_moves_keep_cursor_visible(a: App, amount: nat)
    ensures
        cursor_visible(after_scroll_up(a, amount)),
        cursor_visible(after_scroll_to_top(a)),
        a.cursor <= cursor_max(a.lines@.len()) ==> cursor_visible(after_scroll_down(a, amount)),
        cursor_visible(after_resume_follow(a)),
{
    lemma_visible_scroll_shows_cursor(App {
        follow: false,
        cursor: min(a.cursor + amount, cursor_max(a.lines@.len()) as int) as usize,
        ..a
    });
    lemma_visible_scroll_shows_cursor(App { follow: false, cursor: cursor_max(a.lines@.len()) as usize, ..a });
    if a.cursor <= cursor_max(a.lines@.len()) {
        let c: int = if a.cursor >= amount { a.cursor - amount } else { 0 };
        lemma_visible_scroll_shows_cursor(App { follow: a.follow || c == 0, cursor: c as usize, ..a });
    }
}

/// Scrolling down far enough to reach the newest line resumes following.
pub proof fn lemma_scrolling_to_bottom_follows(a: App, amount: nat)
    requires
        a.cursor <= amount,
    ensures
        after_scroll_down(a, amount).follow,
        after_scroll_down(a, amount).cursor == 0,
{
}

/// `a` holds the stream `s` of pushed lines as the buffer should: its last
/// `min(len, cap)` lines in order, with the older ones counted as dropped.
pub open spec fn holds_stream(a: App, s: Seq<LogLine>) -> bool {
    let m: int = if s.len() <= a.cap { s.len() as int } else { a.cap as int };
    &&& a.lines@ == s.subrange(s.len() - m, s.len() as int)
    &&& a.dropped == s.len() - m
}

/// A new viewer holds the empty stream.
pub proof fn lemma_new_holds_empty_stream(a: App)
    requires
        a.lines@.len() == 0,
        a.dropped == 0,
    ensures
        holds_stream(a, Seq::empty()),
{
    assert(a.lines@ =~= Seq::<LogLine>::empty().subrange(0, 0));
}

/// Pushing a line keeps the buffer holding the stream: after any sequence of pushes
/// the buffer holds the last `min(k, cap)` of the `k` lines, oldest evicted first, and
/// the rest are counted as dropped.
pub proof fn lemma_push_holds_stream(o: App, f: App, s: Seq<LogLine>, line: LogLine)
    requires
        holds_stream(o, s),
        pushed(o, f, line),
    ensures
        holds_stream(f, s.push(line)),
{
    let t = s.push(line);
    let m: int = if s.len() <= o.cap { s.len() as int } else { o.cap as int };
    let l1 = o.lines@.push(line);
    if l1.len() > o.cap {
        assert(l1.drop_first() =~= t.subrange(t.len() - o.cap, t.len() as int));
    } else {
        assert(l1 =~= t.subrange(0, t.len() as int));
    }
}

/// Moving the cursor or view leaves the buffer holding the same stream; so does any
/// change that keeps the lines, the count of dropped lines and the cap (such as a key
/// press, see `lemma_keys_keep_buffer`).
pub proof fn lemma_moves_hold_stream(o: App, f: App, s: Seq<LogLine>, amount: nat)
    requires
        holds_stream(o, s),
    ensures
        holds_stream(after_scroll_up(o, amount), s),
        holds_stream(after_scroll_down(o, amount), s),
        holds_stream(after_scroll_to_top(o), s),
        holds_stream(after_resume_follow(o), s),
        f.lines@ == o.lines@ && f.dropped == o.dropped && f.cap == o.cap ==> holds_stream(f, s),
{
}

} // verus!
