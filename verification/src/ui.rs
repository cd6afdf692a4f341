use vstd::prelude::*;

use crate::app::{min, App, LogLine};
use crate::config::{formatted, Formatted, RuleSet, RuleSetView, TermColor};
use crate::detail::{char_piece, dim, dim_piece, line_view, piece, push_piece};
use crate::json::{bool_text, json_quoted, null_text, push_bool, quote, Json};
use crate::piece::{piece_view, pieces_view, Piece, Tone};
use crate::text::{chars_of, concat, decimal, push_decimal, push_decimal_wide, push_str};

verus! {

/// Stop building pieces for a single line past this many chars; the terminal
/// truncates at the right edge anyway and payloads can be huge.
pub const LINE_CHAR_BUDGET: usize = 2048;

/// The mark left where a line was cut short.
pub open spec fn ellipsis() -> (Seq<char>, Tone) {
    (seq!['…'], Tone::Dim)
}

/// Appending piece `p` with `b` characters of budget left: it goes in whole and is
/// charged to the budget, or, when it does not fit, an ellipsis takes its place and
/// the budget is spent.
pub open spec fn charged(b: nat, p: (Seq<char>, Tone)) -> (Seq<(Seq<char>, Tone)>, nat) {
    if p.0.len() >= b {
        (seq![ellipsis()], 0)
    } else {
        (seq![p], (b - p.0.len()) as nat)
    }
}

/// The pieces `r` followed by the charged piece `p`.
pub open spec fn then(r: (Seq<(Seq<char>, Tone)>, nat), p: (Seq<char>, Tone)) -> (Seq<(Seq<char>, Tone)>, nat) {
    (r.0 + charged(r.1, p).0, charged(r.1, p).1)
}

/// Colorized compact pieces of `v` within a budget of `b` characters, and the
/// budget left: keys unquoted, strings quoted and escaped, punctuation dim. Once
/// the budget is spent nothing more is added, except that a container whose last
/// member spent it still appends its (charged) closing bracket.
pub open spec fn spans(v: Json, b: nat) -> (Seq<(Seq<char>, Tone)>, nat)
    decreases v, 1int,
{
    if b == 0 {
        (Seq::empty(), 0)
    } else {
        match v {
            Json::Object(e) => {
                let open = charged(b, dim(seq!['{']));
                let m = member_spans(e@, true, open.1);
                if m.2 {
                    (open.0 + m.0, m.1)
                } else {
                    then((open.0 + m.0, m.1), dim(seq!['}']))
                }
            },
            Json::Array(items) => {
                let open = charged(b, dim(seq!['[']));
                let m = element_spans(items@, true, open.1);
                if m.2 {
                    (open.0 + m.0, m.1)
                } else {
                    then((open.0 + m.0, m.1), dim(seq![']']))
                }
            },
            Json::Str(s) => charged(b, (json_quoted(s@), Tone::Str)),
            Json::Number(n) => charged(b, (n.text@, Tone::Num)),
            Json::Bool(x) => charged(b, (bool_text(x), Tone::Bool)),
            Json::Null => charged(b, dim(null_text())),
        }
    }
}

/// The pieces of object members `e` (`first` when no member precedes them), the
/// budget left, and whether rendering stopped early on an exhausted budget.
pub open spec fn member_spans(e: Seq<(String, Json)>, first: bool, b: nat) -> (Seq<(Seq<char>, Tone)>, nat, bool)
    decreases e, 0int,
{
    if e.len() == 0 {
        (Seq::empty(), b, false)
    } else if b == 0 {
        (Seq::empty(), 0, true)
    } else {
        let r1 = if first { (Seq::<(Seq<char>, Tone)>::empty(), b) } else { charged(b, dim(seq![','])) };
        let r3 = then(then(r1, (e[0].0@, Tone::Key)), dim(seq![':']));
        let r4 = spans(e[0].1, r3.1);
        let rest = member_spans(e.subrange(1, e.len() as int), false, r4.1);
        (r3.0 + r4.0 + rest.0, rest.1, rest.2)
    }
}

/// The pieces of array elements, as `member_spans` does for members.
pub open spec fn element_spans(items: Seq<Json>, first: bool, b: nat) -> (Seq<(Seq<char>, Tone)>, nat, bool)
    decreases items, 0int,
{
    if items.len() == 0 {
        (Seq::empty(), b, false)
    } else if b == 0 {
        (Seq::empty(), 0, true)
    } else {
        let r1 = if first { (Seq::<(Seq<char>, Tone)>::empty(), b) } else { charged(b, dim(seq![','])) };
        let r2 = spans(items[0], r1.1);
        let rest = element_spans(items.subrange(1, items.len() as int), false, r2.1);
        (r1.0 + r2.0 + rest.0, rest.1, rest.2)
    }
}

/// Appends `p` if it fits in the budget, else an ellipsis (see `charged`).
fn push_charged(out: &mut Vec<Piece>, budget: &mut usize, p: Piece)
    ensures
        line_view(*final(out)) == line_view(*old(out)) + charged(*old(budget) as nat, piece_view(p)).0,
        *final(budget) == charged(*old(budget) as nat, piece_view(p)).1,
{
    let len = chars_of(p.text.as_str()).len();
    if len >= *budget {
        *budget = 0;
        push_piece(out, char_piece('…'));
    } else {
        *budget = *budget - len;
        push_piece(out, p);
    }
    assert(line_view(*out) =~= line_view(*old(out)) + charged(*old(budget) as nat, piece_view(p)).0);
}

/// Appends the colorized compact pieces of `v` within the budget (see `spans`).
fn json_spans(v: &Json, out: &mut Vec<Piece>, budget: &mut usize)
    ensures
        line_view(*final(out)) == line_view(*old(out)) + spans(*v, *old(budget) as nat).0,
        *final(budget) == spans(*v, *old(budget) as nat).1,
    decreases v, 1int,
{
    if *budget == 0 {
        assert(line_view(*out) =~= line_view(*old(out)) + Seq::<(Seq<char>, Tone)>::empty());
        return;
    }
    let ghost o0 = line_view(*out);
    let ghost b0 = *budget as nat;
    match v {
        Json::Object(e) => {
            push_charged(out, budget, char_piece('{'));
            proof {
                assert(decreases_to!(*v => (*v)->Object_0));
                assert(decreases_to!((*v)->Object_0 => e@));
            }
            let stopped = push_members(e, out, budget);
            if !stopped {
                push_charged(out, budget, char_piece('}'));
            }
            proof {
                assert(line_view(*out) =~= o0 + spans(*v, b0).0);
            }
        },
        Json::Array(items) => {
            push_charged(out, budget, char_piece('['));
            proof {
                assert(decreases_to!(*v => (*v)->Array_0));
                assert(decreases_to!((*v)->Array_0 => items@));
            }
            let stopped = push_elements(items, out, budget);
            if !stopped {
                push_charged(out, budget, char_piece(']'));
            }
            proof {
                assert(line_view(*out) =~= o0 + spans(*v, b0).0);
            }
        },
        Json::Str(s) => {
            push_charged(out, budget, piece(quote(s.as_str()), Tone::Str));
        },
        Json::Number(n) => {
            push_charged(out, budget, piece(n.text.clone(), Tone::Num));
        },
        Json::Bool(x) => {
            let mut t = String::new();
            push_bool(&mut t, *x);
            assert(t@ =~= bool_text(*x));
            push_charged(out, budget, piece(t, Tone::Bool));
        },
        Json::Null => {
            let p = dim_piece("null");
            proof {
                reveal_strlit("null");
                assert("null"@ =~= null_text());
            }
            push_charged(out, budget, p);
        },
    }
}

/// Appends the pieces of object members within the budget; says whether it
/// stopped early on an exhausted budget (see `member_spans`).
fn push_members(e: &Vec<(String, Json)>, out: &mut Vec<Piece>, budget: &mut usize) -> (stopped: bool)
    ensures
        line_view(*final(out)) == line_view(*old(out)) + member_spans(e@, true, *old(budget) as nat).0,
        *final(budget) == member_spans(e@, true, *old(budget) as nat).1,
        stopped == member_spans(e@, true, *old(budget) as nat).2,
    decreases e@, 0int,
{
    let ghost o0 = line_view(*out);
    let ghost full = member_spans(e@, true, *budget as nat);
    let mut i: usize = 0;
    assert(e@.subrange(0, e@.len() as int) =~= e@);
    while i < e.len()
        invariant
            o0 == line_view(*old(out)),
            full == member_spans(e@, true, *old(budget) as nat),
            i <= e@.len(),
            ({
                let m = member_spans(e@.subrange(i as int, e@.len() as int), i == 0, *budget as nat);
                &&& line_view(*out) + m.0 == o0 + full.0
                &&& m.1 == full.1
                &&& m.2 == full.2
            }),
        decreases e@.len() - i,
    {
        let ghost s = e@.subrange(i as int, e@.len() as int);
        if *budget == 0 {
            assert(member_spans(s, i == 0, 0) == (Seq::<(Seq<char>, Tone)>::empty(), 0nat, true));
            assert(line_view(*out) =~= o0 + full.0);
            return true;
        }
        proof {
            assert(s[0] == e@[i as int]);
            assert(s.subrange(1, s.len() as int) =~= e@.subrange(i + 1, e@.len() as int));
            assert(decreases_to!(e@ => e@[i as int]));
            assert(decreases_to!(e@[i as int] => e@[i as int].1));
        }
        let ghost before = line_view(*out);
        let ghost bb = *budget as nat;
        let ghost i0 = i;
        if i > 0 {
            push_charged(out, budget, char_piece(','));
        }
        let ghost after_comma = line_view(*out);
        push_charged(out, budget, piece(e[i].0.clone(), Tone::Key));
        push_charged(out, budget, char_piece(':'));
        let ghost mid = line_view(*out);
        json_spans(&e[i].1, out, budget);
        i = i + 1;
        proof {
            let r1 = if i0 == 0 { (Seq::<(Seq<char>, Tone)>::empty(), bb) } else { charged(bb, dim(seq![','])) };
            let r3 = then(then(r1, (e@[i0 as int].0@, Tone::Key)), dim(seq![':']));
            let r4 = spans(e@[i0 as int].1, r3.1);
            assert(after_comma =~= before + r1.0);
            assert(mid =~= before + r3.0);
            let rest = member_spans(e@.subrange(i as int, e@.len() as int), false, r4.1);
            assert(line_view(*out) + rest.0 =~= before + (r3.0 + r4.0 + rest.0));
        }
    }
    assert(e@.subrange(i as int, e@.len() as int) =~= Seq::<(String, Json)>::empty());
    assert(line_view(*out) =~= o0 + full.0);
    false
}

/// Appends the pieces of array elements within the budget; says whether it
/// stopped early on an exhausted budget (see `element_spans`).
fn push_elements(items: &Vec<Json>, out: &mut Vec<Piece>, budget: &mut usize) -> (stopped: bool)
    ensures
        line_view(*final(out)) == line_view(*old(out)) + element_spans(items@, true, *old(budget) as nat).0,
        *final(budget) == element_spans(items@, true, *old(budget) as nat).1,
        stopped == element_spans(items@, true, *old(budget) as nat).2,
    decreases items@, 0int,
{
    let ghost o0 = line_view(*out);
    let ghost full = element_spans(items@, true, *budget as nat);
    let mut i: usize = 0;
    assert(items@.subrange(0, items@.len() as int) =~= items@);
    while i < items.len()
        invariant
            o0 == line_view(*old(out)),
            full == element_spans(items@, true, *old(budget) as nat),
            i <= items@.len(),
            ({
                let m = element_spans(items@.subrange(i as int, items@.len() as int), i == 0, *budget as nat);
                &&& line_view(*out) + m.0 == o0 + full.0
                &&& m.1 == full.1
                &&& m.2 == full.2
            }),
        decreases items@.len() - i,
    {
        let ghost s = items@.subrange(i as int, items@.len() as int);
        if *budget == 0 {
            assert(element_spans(s, i == 0, 0) == (Seq::<(Seq<char>, Tone)>::empty(), 0nat, true));
            assert(line_view(*out) =~= o0 + full.0);
            return true;
        }
        proof {
            assert(s[0] == items@[i as int]);
            assert(s.subrange(1, s.len() as int) =~= items@.subrange(i + 1, items@.len() as int));
            assert(decreases_to!(items@ => items@[i as int]));
        }
        let ghost before = line_view(*out);
        let ghost bb = *budget as nat;
        let ghost i0 = i;
        if i > 0 {
            push_charged(out, budget, char_piece(','));
        }
        let ghost mid = line_view(*out);
        json_spans(&items[i], out, budget);
        i = i + 1;
        proof {
            let r1 = if i0 == 0 { (Seq::<(Seq<char>, Tone)>::empty(), bb) } else { charged(bb, dim(seq![','])) };
            let r2 = spans(items@[i0 as int], r1.1);
            assert(mid =~= before + r1.0);
            let rest = element_spans(items@.subrange(i as int, items@.len() as int), false, r2.1);
            assert(line_view(*out) + rest.0 =~= before + (r1.0 + r2.0 + rest.0));
        }
    }
    assert(items@.subrange(i as int, items@.len() as int) =~= Seq::<Json>::empty());
    assert(line_view(*out) =~= o0 + full.0);
    false
}

/// How a log line is drawn: a record by the first display rule that formats it
/// (with that rule's color for its field values), unless raw JSON is asked for; a
/// record no rule formats as its JSON colorized within the line budget; a text
/// line as its raw text.
pub open spec fn line_rendering(line: LogLine, rules: RuleSetView, raw_mode: bool) -> (Seq<(Seq<char>, Tone)>, Option<TermColor>) {
    match line.json {
        Some(v) => match (if raw_mode { None } else { formatted(rules, v) }) {
            Some(f) => f,
            None => (spans(v, LINE_CHAR_BUDGET as nat).0, None),
        },
        None => (seq![(line.raw@, Tone::Plain)], None),
    }
}

/// The pieces a log line is drawn with, and the color of its field values.
pub fn render_line(line: &LogLine, rules: &RuleSet, raw_mode: bool) -> (r: Formatted)
    ensures
        (pieces_view(r.pieces@), r.color) == line_rendering(*line, rules@, raw_mode),
{
    let mut out: Vec<Piece> = Vec::new();
    assert(line_view(out) =~= Seq::<(Seq<char>, Tone)>::empty());
    match &line.json {
        Some(v) => {
            if !raw_mode {
                match rules.format_line(v) {
                    Some(f) => {
                        return f;
                    },
                    None => {},
                }
            }
            let mut budget = LINE_CHAR_BUDGET;
            json_spans(v, &mut out, &mut budget);
            assert(line_view(out) =~= spans(*v, LINE_CHAR_BUDGET as nat).0);
        },
        None => {
            push_piece(&mut out, piece(line.raw.clone(), Tone::Plain));
            assert(line_view(out) =~= seq![(line.raw@, Tone::Plain)]);
        },
    }
    Formatted { pieces: out, color: None }
}

/// A line as plain text for headless output: a record a display rule formats as
/// that formatting, anything else as the raw line.
pub open spec fn line_text(line: LogLine, rules: RuleSetView) -> Seq<char> {
    match line.json {
        Some(v) => match formatted(rules, v) {
            Some(f) => concat(pieces_view_texts(f.0)),
            None => line.raw@,
        },
        None => line.raw@,
    }
}

/// The texts of pieces, in order.
pub open spec fn pieces_view_texts(ps: Seq<(Seq<char>, Tone)>) -> Seq<Seq<char>> {
    ps.map_values(|p: (Seq<char>, Tone)| p.0)
}

/// A line as plain text for headless output (see `line_text`).
pub fn render_text(line: &LogLine, rules: &RuleSet) -> (t: String)
    ensures
        t@ == line_text(*line, rules@),
{
    match &line.json {
        Some(v) => match rules.format_line(v) {
            Some(f) => {
                let mut t = String::new();
                let mut i: usize = 0;
                while i < f.pieces.len()
                    invariant
                        i <= f.pieces@.len(),
                        t@ == concat(pieces_view_texts(pieces_view(f.pieces@)).take(i as int)),
                    decreases f.pieces@.len() - i,
                {
                    push_str(&mut t, f.pieces[i].text.as_str());
                    proof {
                        let ts = pieces_view_texts(pieces_view(f.pieces@));
                        assert(ts.take(i + 1).drop_last() =~= ts.take(i as int));
                    }
                    i = i + 1;
                }
                proof {
                    let ts = pieces_view_texts(pieces_view(f.pieces@));
                    assert(ts.take(i as int) =~= ts);
                }
                t
            },
            None => line.raw.clone(),
        },
        None => line.raw.clone(),
    }
}

/// `a - b`, or 0 when `b` exceeds `a`.
pub open spec fn sat_sub(a: int, b: int) -> int {
    if a >= b { a - b } else { 0 }
}

/// Which lines the log view shows: `lines[start..end]`, with the row of line
/// `highlight` marked as selected (only while browsing).
pub struct Window {
    pub start: usize,
    pub end: usize,
    pub highlight: Option<usize>,
}

/// How far from the newest line the bottom row of the view sits: 0 while
/// following, else the scroll offset, clamped so that a full page shows.
pub open spec fn window_scroll(a: App, height: nat) -> int {
    if a.follow { 0 } else { min(a.scroll as int, sat_sub(a.lines@.len() as int, height as int)) }
}

/// The index of the selected line (the oldest when the cursor is past it).
pub open spec fn cursor_index(a: App) -> int {
    let n = a.lines@.len() as int;
    sat_sub(n, 1 + min(a.cursor as int, sat_sub(n, 1)))
}

/// The lines the log view shows in `height` rows.
pub fn window(app: &App, height: usize) -> (w: Window)
    ensures
        w.end == app.lines@.len() - window_scroll(*app, height as nat),
        w.start == sat_sub(w.end as int, height as int),
        w.highlight == (if app.follow { None } else { Some(cursor_index(*app) as usize) }),
{
    let n = app.lines.len();
    let scroll = if app.follow {
        0
    } else {
        let m = if n >= height { n - height } else { 0 };
        if app.scroll < m { app.scroll } else { m }
    };
    let end = n - scroll;
    let start = if end >= height { end - height } else { 0 };
    let last = if n >= 1 { n - 1 } else { 0 };
    let c = if app.cursor < last { app.cursor } else { last };
    let idx = if n >= 1 + c { n - (1 + c) } else { 0 };
    let highlight = if app.follow { None } else { Some(idx) };
    Window { start, end, highlight }
}

/// The key help shown at the end of the status bar.
pub open spec fn help_text() -> Seq<char> {
    "  q quit  ↑/↓ move  ⏎ expand  f follow  g/G top/bottom"@
}

/// The status bar for a view of lines `start..end`: the mode badge, the source
/// and position, how many lines were evicted (if any), whether the stream ended,
/// and the key help.
pub open spec fn status_pieces(a: App, start: nat, end: nat) -> Seq<(Seq<char>, Tone)> {
    let mode = if a.follow { (" FOLLOW "@, Tone::Follow) } else { (" BROWSE "@, Tone::Browse) };
    let pos = " "@ + a.source@ + " | "@ + decimal(start + 1) + "-"@ + decimal(end) + " of "@ + decimal(
        a.lines@.len(),
    ) + " lines"@;
    seq![mode, (pos, Tone::Plain)] + (if a.dropped > 0 {
        seq![(" (+"@ + decimal(a.dropped as nat) + " scrolled off)"@, Tone::Plain)]
    } else {
        Seq::empty()
    }) + (if a.ended {
        seq![(" | stream ended"@, Tone::Alert)]
    } else {
        Seq::empty()
    }) + seq![(help_text(), Tone::Dim)]
}

/// A piece holding the text of a string literal.
fn text_piece(t: &str, tone: Tone) -> (p: Piece)
    ensures
        piece_view(p) == (t@, tone),
{
    let mut s = String::new();
    push_str(&mut s, t);
    assert(s@ =~= t@);
    Piece { text: s, tone }
}

/// The status bar for a view of lines `start..end`.
pub fn status_line(app: &App, start: usize, end: usize) -> (r: Vec<Piece>)
    ensures
        line_view(r) == status_pieces(*app, start as nat, end as nat),
{
    let mut out: Vec<Piece> = Vec::new();
    let ghost empty = line_view(out);
    if app.follow {
        push_piece(&mut out, text_piece(" FOLLOW ", Tone::Follow));
    } else {
        push_piece(&mut out, text_piece(" BROWSE ", Tone::Browse));
    }
    let mut pos = String::new();
    push_str(&mut pos, " ");
    push_str(&mut pos, app.source.as_str());
    push_str(&mut pos, " | ");
    push_decimal_wide(&mut pos, start as u128 + 1);
    push_str(&mut pos, "-");
    push_decimal_wide(&mut pos, end as u128);
    push_str(&mut pos, " of ");
    push_decimal_wide(&mut pos, app.lines.len() as u128);
    push_str(&mut pos, " lines");
    push_piece(&mut out, piece(pos, Tone::Plain));
    let ghost head = line_view(out);
    if app.dropped > 0 {
        let mut d = String::new();
        push_str(&mut d, " (+");
        push_decimal(&mut d, app.dropped);
        push_str(&mut d, " scrolled off)");
        push_piece(&mut out, piece(d, Tone::Plain));
    }
    let ghost with_dropped = line_view(out);
    if app.ended {
        push_piece(&mut out, text_piece(" | stream ended", Tone::Alert));
    }
    let ghost with_ended = line_view(out);
    push_piece(&mut out, text_piece("  q quit  ↑/↓ move  ⏎ expand  f follow  g/G top/bottom", Tone::Dim));
    proof {
        let a = *app;
        let mode = if a.follow { (" FOLLOW "@, Tone::Follow) } else { (" BROWSE "@, Tone::Browse) };
        let pos_text = " "@ + a.source@ + " | "@ + decimal(start as nat + 1) + "-"@ + decimal(end as nat) + " of "@
            + decimal(a.lines@.len()) + " lines"@;
        assert(pos@ =~= pos_text);
        assert(head =~= seq![mode, (pos_text, Tone::Plain)]);
        let dropped_part = if a.dropped > 0 {
            seq![(" (+"@ + decimal(a.dropped as nat) + " scrolled off)"@, Tone::Plain)]
        } else {
            Seq::<(Seq<char>, Tone)>::empty()
        };
        assert(with_dropped =~= head + dropped_part);
        let ended_part = if a.ended {
            seq![(" | stream ended"@, Tone::Alert)]
        } else {
            Seq::<(Seq<char>, Tone)>::empty()
        };
        assert(with_ended =~= head + dropped_part + ended_part);
        assert(line_view(out) =~= status_pieces(a, start as nat, end as nat));
    }
    out
}

/// The characters shown by pieces, cut marks aside.
pub open spec fn kept_len(ps: Seq<(Seq<char>, Tone)>) -> nat
    decreases ps.len(),
{
    if ps.len() == 0 {
        0
    } else {
        kept_len(ps.drop_last()) + (if ps.last() == ellipsis() { 0 } else { ps.last().0.len() })
    }
}

proof fn lemma_kept_len_concat(a: Seq<(Seq<char>, Tone)>, b: Seq<(Seq<char>, Tone)>)
    ensures
        kept_len(a + b) == kept_len(a) + kept_len(b),
    decreases b.len(),
{
    if b.len() > 0 {
        assert((a + b).drop_last() =~= a + b.drop_last());
        lemma_kept_len_concat(a, b.drop_last());
    } else {
        assert(a + b =~= a);
    }
}

proof fn lemma_charged_within(b: nat, p: (Seq<char>, Tone))
    ensures
        kept_len(charged(b, p).0) + charged(b, p).1 <= b,
{
    let r = charged(b, p).0;
    assert(r.drop_last() =~= Seq::<(Seq<char>, Tone)>::empty());
    assert(kept_len(r.drop_last()) == 0);
    assert(kept_len(r) == (if r.last() == ellipsis() { 0 } else { r.last().0.len() }));
}

proof fn lemma_then_within(r: (Seq<(Seq<char>, Tone)>, nat), p: (Seq<char>, Tone), b: nat)
    requires
        kept_len(r.0) + r.1 <= b,
    ensures
        kept_len(then(r, p).0) + then(r, p).1 <= b,
{
    lemma_charged_within(r.1, p);
    lemma_kept_len_concat(r.0, charged(r.1, p).0);
}

/// A rendered line never shows more than its budget of characters, cut marks
/// aside; what it shows and the budget left add up to at most the budget.
pub proof fn lemma_spans_within_budget(v: Json, b: nat)
    ensures
        kept_len(spans(v, b).0) + spans(v, b).1 <= b,
    decreases v, 1int,
{
    if b > 0 {
        match v {
            Json::Object(e) => {
                let open = charged(b, dim(seq!['{']));
                lemma_charged_within(b, dim(seq!['{']));
                lemma_members_within_budget(e@, true, open.1);
                let m = member_spans(e@, true, open.1);
                lemma_kept_len_concat(open.0, m.0);
                if !m.2 {
                    lemma_then_within((open.0 + m.0, m.1), dim(seq!['}']), b);
                }
            },
            Json::Array(items) => {
                let open = charged(b, dim(seq!['[']));
                lemma_charged_within(b, dim(seq!['[']));
                lemma_elements_within_budget(items@, true, open.1);
                let m = element_spans(items@, true, open.1);
                lemma_kept_len_concat(open.0, m.0);
                if !m.2 {
                    lemma_then_within((open.0 + m.0, m.1), dim(seq![']']), b);
                }
            },
            Json::Str(s) => lemma_charged_within(b, (json_quoted(s@), Tone::Str)),
            Json::Number(n) => lemma_charged_within(b, (n.text@, Tone::Num)),
            Json::Bool(x) => lemma_charged_within(b, (bool_text(x), Tone::Bool)),
            Json::Null => lemma_charged_within(b, dim(null_text())),
        }
    } else {
        assert(kept_len(Seq::<(Seq<char>, Tone)>::empty()) == 0);
    }
}

proof fn lemma_members_within_budget(e: Seq<(String, Json)>, first: bool, b: nat)
    ensures
        kept_len(member_spans(e, first, b).0) + member_spans(e, first, b).1 <= b,
    decreases e, 0int,
{
    if e.len() > 0 && b > 0 {
        let r1 = if first { (Seq::<(Seq<char>, Tone)>::empty(), b) } else { charged(b, dim(seq![','])) };
        if first {
            assert(kept_len(r1.0) == 0);
        } else {
            lemma_charged_within(b, dim(seq![',']));
        }
        let r2 = then(r1, (e[0].0@, Tone::Key));
        lemma_then_within(r1, (e[0].0@, Tone::Key), b);
        let r3 = then(r2, dim(seq![':']));
        lemma_then_within(r2, dim(seq![':']), b);
        let r4 = spans(e[0].1, r3.1);
        lemma_spans_within_budget(e[0].1, r3.1);
        let rest = member_spans(e.subrange(1, e.len() as int), false, r4.1);
        lemma_members_within_budget(e.subrange(1, e.len() as int), false, r4.1);
        lemma_kept_len_concat(r3.0, r4.0);
        lemma_kept_len_concat(r3.0 + r4.0, rest.0);
    } else if e.len() == 0 {
    } else {
        assert(kept_len(Seq::<(Seq<char>, Tone)>::empty()) == 0);
    }
}

proof fn lemma_elements_within_budget(items: Seq<Json>, first: bool, b: nat)
    ensures
        kept_len(element_spans(items, first, b).0) + element_spans(items, first, b).1 <= b,
    decreases items, 0int,
{
    if items.len() > 0 && b > 0 {
        let r1 = if first { (Seq::<(Seq<char>, Tone)>::empty(), b) } else { charged(b, dim(seq![','])) };
        if first {
            assert(kept_len(r1.0) == 0);
        } else {
            lemma_charged_within(b, dim(seq![',']));
        }
        let r2 = spans(items[0], r1.1);
        lemma_spans_within_budget(items[0], r1.1);
        let rest = element_spans(items.subrange(1, items.len() as int), false, r2.1);
        lemma_elements_within_budget(items.subrange(1, items.len() as int), false, r2.1);
        lemma_kept_len_concat(r1.0, r2.0);
        lemma_kept_len_concat(r1.0 + r2.0, rest.0);
    } else if items.len() == 0 {
        assert(kept_len(Seq::<(Seq<char>, Tone)>::empty()) == 0);
    } else {
        assert(kept_len(Seq::<(Seq<char>, Tone)>::empty()) == 0);
    }
}

/// The window of the log view never reaches past the buffer or past the height.
pub proof fn lemma_window_fits(a: App, height: nat)
    ensures
        ({
            let end = a.lines@.len() - window_scroll(a, height);
            let start = sat_sub(end, height as int);
            0 <= start <= end <= a.lines@.len() && end - start <= height
        }),
{
}

} // verus!
