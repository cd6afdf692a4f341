use vstd::prelude::*;

use crate::app::LogLine;
use crate::json::{bool_text, json_quoted, null_text, push_bool, quote, Json};
use crate::piece::{piece_view, pieces_view, Piece, Tone};
use crate::text::{decimal, push_char, push_decimal, push_str, spaces};

verus! {

/// A line of pieces, as values.
pub open spec fn line_view(l: Vec<Piece>) -> Seq<(Seq<char>, Tone)> {
    pieces_view(l@)
}

/// Lines of pieces, as values.
pub open spec fn lines_view(ls: Seq<Vec<Piece>>) -> Seq<Seq<(Seq<char>, Tone)>> {
    ls.map_values(|l: Vec<Piece>| line_view(l))
}

/// Indentation for a nesting depth: four spaces per level.
pub open spec fn pad(depth: nat) -> (Seq<char>, Tone) {
    (spaces(4 * depth), Tone::Plain)
}

pub open spec fn dim(t: Seq<char>) -> (Seq<char>, Tone) {
    (t, Tone::Dim)
}

/// A trailing comma, when one is due.
pub open spec fn comma_piece(comma: bool) -> Seq<(Seq<char>, Tone)> {
    if comma {
        seq![dim(seq![','])]
    } else {
        Seq::empty()
    }
}

/// A scalar (or empty container) as one colored piece.
pub open spec fn scalar_piece(v: Json) -> (Seq<char>, Tone) {
    match v {
        Json::Str(s) => (json_quoted(s@), Tone::Str),
        Json::Number(n) => (n.text@, Tone::Num),
        Json::Bool(b) => (bool_text(b), Tone::Bool),
        Json::Null => dim(null_text()),
        Json::Object(_) => dim(seq!['{', '}']),
        Json::Array(_) => dim(seq!['[', ']']),
    }
}

/// The closing line of a container.
pub open spec fn closer(ch: char, depth: nat, comma: bool) -> Seq<(Seq<char>, Tone)> {
    seq![pad(depth), dim(seq![ch])] + comma_piece(comma)
}

/// Pretty-printed lines of `v` at `depth`, its first line starting with `prefix`:
/// objects and arrays open on the prefix line, list one member per line (or more, if
/// nested) indented one level deeper, and close on their own line; commas follow
/// all but the last member.
pub open spec fn pretty(v: Json, depth: nat, prefix: Seq<(Seq<char>, Tone)>, comma: bool) -> Seq<Seq<(Seq<char>, Tone)>>
    decreases v, 1int,
{
    match v {
        Json::Object(e) => if e@.len() > 0 {
            seq![prefix.push(dim(seq!['{']))] + member_lines(e@, depth, e@.len() - 1) + seq![closer('}', depth, comma)]
        } else {
            seq![prefix.push(scalar_piece(v)) + comma_piece(comma)]
        },
        Json::Array(items) => if items@.len() > 0 {
            seq![prefix.push(dim(seq!['[']))] + element_lines(items@, depth, items@.len() - 1) + seq![closer(']', depth, comma)]
        } else {
            seq![prefix.push(scalar_piece(v)) + comma_piece(comma)]
        },
        _ => seq![prefix.push(scalar_piece(v)) + comma_piece(comma)],
    }
}

/// The lines of object members (keys quoted), the member at `last` without a comma.
pub open spec fn member_lines(e: Seq<(String, Json)>, depth: nat, last: int) -> Seq<Seq<(Seq<char>, Tone)>>
    decreases e, 0int,
{
    if e.len() == 0 {
        Seq::empty()
    } else {
        let k = e.len() - 1;
        member_lines(e.subrange(0, k), depth, last) + pretty(
            e[k].1,
            depth + 1,
            seq![pad(depth + 1), (json_quoted(e[k].0@), Tone::Key), dim(seq![':', ' '])],
            k != last,
        )
    }
}

/// The lines of array elements, the element at `last` without a comma.
pub open spec fn element_lines(items: Seq<Json>, depth: nat, last: int) -> Seq<Seq<(Seq<char>, Tone)>>
    decreases items, 0int,
{
    if items.len() == 0 {
        Seq::empty()
    } else {
        let k = items.len() - 1;
        element_lines(items.subrange(0, k), depth, last) + pretty(items[k], depth + 1, seq![pad(depth + 1)], k != last)
    }
}

pub(crate) fn piece(text: String, tone: Tone) -> (p: Piece)
    ensures
        piece_view(p) == (text@, tone),
{
    Piece { text, tone }
}

pub(crate) fn dim_piece(t: &str) -> (p: Piece)
    ensures
        piece_view(p) == dim(t@),
{
    let mut s = String::new();
    push_str(&mut s, t);
    Piece { text: s, tone: Tone::Dim }
}

pub(crate) fn char_piece(c: char) -> (p: Piece)
    ensures
        piece_view(p) == dim(seq![c]),
{
    let mut s = String::new();
    push_char(&mut s, c);
    assert(s@ =~= seq![c]);
    Piece { text: s, tone: Tone::Dim }
}

fn pad_piece(indent: &String) -> (p: Piece)
    ensures
        piece_view(p) == (indent@, Tone::Plain),
{
    Piece { text: indent.clone(), tone: Tone::Plain }
}

fn scalar_span(v: &Json) -> (p: Piece)
    ensures
        piece_view(p) == scalar_piece(*v),
{
    match v {
        Json::Str(s) => Piece { text: quote(s.as_str()), tone: Tone::Str },
        Json::Number(n) => Piece { text: n.text.clone(), tone: Tone::Num },
        Json::Bool(b) => {
            let mut t = String::new();
            push_bool(&mut t, *b);
            Piece { text: t, tone: Tone::Bool }
        },
        Json::Null => {
            let p = dim_piece("null");
            proof { reveal_strlit("null"); }
            p
        },
        Json::Object(_) => {
            let mut t = String::new();
            push_char(&mut t, '{');
            push_char(&mut t, '}');
            assert(t@ =~= seq!['{', '}']);
            Piece { text: t, tone: Tone::Dim }
        },
        Json::Array(_) => {
            let mut t = String::new();
            push_char(&mut t, '[');
            push_char(&mut t, ']');
            assert(t@ =~= seq!['[', ']']);
            Piece { text: t, tone: Tone::Dim }
        },
    }
}


fn push_line(out: &mut Vec<Vec<Piece>>, line: Vec<Piece>)
    ensures
        lines_view(final(out)@) == lines_view(old(out)@).push(line_view(line)),
{
    out.push(line);
    assert(lines_view(out@) =~= lines_view(old(out)@).push(line_view(line)));
}

pub(crate) fn push_piece(line: &mut Vec<Piece>, p: Piece)
    ensures
        line_view(*final(line)) == line_view(*old(line)).push(piece_view(p)),
{
    line.push(p);
    assert(line_view(*line) =~= line_view(*old(line)).push(piece_view(p)));
}

/// Appends the pretty-printed lines of `v` (see `pretty`).
fn push_value(
    v: &Json,
    Ghost(depth): Ghost<nat>,
    indent: &String,
    prefix: Vec<Piece>,
    comma: bool,
    out: &mut Vec<Vec<Piece>>,
)
    requires
        indent@ == spaces(4 * depth),
    ensures
        lines_view(final(out)@) == lines_view(old(out)@) + pretty(*v, depth, line_view(prefix), comma),
    decreases v,
{
    let ghost pv = line_view(prefix);
    let mut child = indent.clone();
    push_str(&mut child, "    ");
    proof {
        reveal_strlit("    ");
        assert(child@ =~= spaces(4 * (depth + 1)));
    }
    match v {
        Json::Object(e) => {
            if e.len() > 0 {
                let mut first = prefix;
                push_piece(&mut first, char_piece('{'));
                push_line(out, first);
                let ghost start = lines_view(out@);
                let last = e.len() - 1;
                let mut i: usize = 0;
                assert(e@.take(0) =~= Seq::<(String, Json)>::empty());
                while i < e.len()
                    invariant
                        *v == Json::Object(*e),
                        last + 1 == e@.len(),
                        i <= e@.len(),
                        child@ == spaces(4 * (depth + 1)),
                        lines_view(out@) == start + member_lines(e@.take(i as int), depth, last as int),
                    decreases e@.len() - i,
                {
                    proof {
                        assert(decreases_to!(*v => (*v)->Object_0));
                        assert(decreases_to!((*v)->Object_0 => e@));
                        assert(decreases_to!(e@ => e@[i as int]));
                        assert(decreases_to!(e@[i as int] => e@[i as int].1));
                    }
                    let mut kp: Vec<Piece> = Vec::new();
                    push_piece(&mut kp, pad_piece(&child));
                    push_piece(&mut kp, piece(quote(e[i].0.as_str()), Tone::Key));
                    push_piece(&mut kp, dim_piece(": "));
                    proof {
                        reveal_strlit(": ");
                        assert(": "@ =~= seq![':', ' ']);
                        assert(line_view(kp) =~= seq![
                            pad(depth + 1),
                            (json_quoted(e@[i as int].0@), Tone::Key),
                            dim(seq![':', ' ']),
                        ]);
                    }
                    push_value(&e[i].1, Ghost(depth + 1), &child, kp, i != last, out);
                    proof {
                        let t = e@.take(i + 1);
                        assert(t.subrange(0, i as int) == e@.take(i as int));
                        assert(t[i as int] == e@[i as int]);
                    }
                    i += 1;
                }
                assert(e@.take(e@.len() as int) == e@);
                let mut close: Vec<Piece> = Vec::new();
                push_piece(&mut close, pad_piece(indent));
                push_piece(&mut close, char_piece('}'));
                if comma {
                    push_piece(&mut close, char_piece(','));
                }
                assert(line_view(close) =~= closer('}', depth, comma));
                push_line(out, close);
                return;
            }
        },
        Json::Array(items) => {
            if items.len() > 0 {
                let mut first = prefix;
                push_piece(&mut first, char_piece('['));
                push_line(out, first);
                let ghost start = lines_view(out@);
                let last = items.len() - 1;
                let mut i: usize = 0;
                assert(items@.take(0) =~= Seq::<Json>::empty());
                while i < items.len()
                    invariant
                        *v == Json::Array(*items),
                        last + 1 == items@.len(),
                        i <= items@.len(),
                        child@ == spaces(4 * (depth + 1)),
                        lines_view(out@) == start + element_lines(items@.take(i as int), depth, last as int),
                    decreases items@.len() - i,
                {
                    proof {
                        assert(decreases_to!(*v => (*v)->Array_0));
                        assert(decreases_to!((*v)->Array_0 => items@));
                        assert(decreases_to!(items@ => items@[i as int]));
                    }
                    let mut kp: Vec<Piece> = Vec::new();
                    push_piece(&mut kp, pad_piece(&child));
                    assert(line_view(kp) =~= seq![pad(depth + 1)]);
                    push_value(&items[i], Ghost(depth + 1), &child, kp, i != last, out);
                    proof {
                        let t = items@.take(i + 1);
                        assert(t.subrange(0, i as int) == items@.take(i as int));
                        assert(t[i as int] == items@[i as int]);
                    }
                    i += 1;
                }
                assert(items@.take(items@.len() as int) == items@);
                let mut close: Vec<Piece> = Vec::new();
                push_piece(&mut close, pad_piece(indent));
                push_piece(&mut close, char_piece(']'));
                if comma {
                    push_piece(&mut close, char_piece(','));
                }
                assert(line_view(close) =~= closer(']', depth, comma));
                push_line(out, close);
                return;
            }
        },
        _ => {},
    }
    let mut line = prefix;
    push_piece(&mut line, scalar_span(v));
    if comma {
        push_piece(&mut line, char_piece(','));
    }
    assert(line_view(line) =~= pv.push(scalar_piece(*v)) + comma_piece(comma));
    push_line(out, line);
}

/// Pretty-prints a JSON value as colored lines with 4-space indentation.
pub fn pretty_lines(v: &Json) -> (out: Vec<Vec<Piece>>)
    ensures
        lines_view(out@) == pretty(*v, 0, Seq::empty(), false),
{
    let mut out: Vec<Vec<Piece>> = Vec::new();
    let indent = String::new();
    assert(indent@ =~= spaces(0));
    let prefix: Vec<Piece> = Vec::new();
    assert(line_view(prefix) =~= Seq::<(Seq<char>, Tone)>::empty());
    assert(lines_view(out@) =~= Seq::<Seq<(Seq<char>, Tone)>>::empty());
    push_value(v, Ghost(0), &indent, prefix, false, &mut out);
    assert(lines_view(out@) =~= pretty(*v, 0, Seq::empty(), false));
    out
}


/// Expanded, pretty-printed view of a single record. Content is a snapshot
/// taken when opened, so eviction under a firehose can't pull it away.
pub struct Detail {
    lines: Vec<Vec<Piece>>,
    scroll: usize,
    viewport_h: usize,
    title: String,
}

/// A detail view as values.
pub struct DetailView {
    pub lines: Seq<Seq<(Seq<char>, Tone)>>,
    pub scroll: usize,
    pub viewport_h: usize,
    pub title: Seq<char>,
}

/// The lines shown for a log line: the pretty-printed record, or the raw text.
pub open spec fn detail_lines(line: LogLine) -> Seq<Seq<(Seq<char>, Tone)>> {
    match line.json {
        Some(v) => pretty(v, 0, Seq::empty(), false),
        None => seq![seq![(line.raw@, Tone::Plain)]],
    }
}

/// The title of a detail view: ` line N · json ` or ` line N · text `.
pub open spec fn detail_title(line: LogLine, n: u64) -> Seq<char> {
    " line "@ + decimal(n as nat) + " · "@ + (if line.json is Some { "json"@ } else { "text"@ }) + " "@
}

/// How far a view of `len` lines can scroll with `viewport_h` rows.
pub open spec fn max_scroll_of(len: nat, viewport_h: nat) -> nat {
    let h: nat = if viewport_h > 0 { viewport_h } else { 1 };
    if len > h { (len - h) as nat } else { 0 }
}

/// Rows in a page of a view (at least one).
pub open spec fn page_of(v: DetailView) -> nat {
    if v.viewport_h > 0 { v.viewport_h as nat } else { 1 }
}

/// How far a view can scroll.
pub open spec fn view_max_scroll(v: DetailView) -> nat {
    max_scroll_of(v.lines.len(), v.viewport_h as nat)
}

/// The view scrolled up by `amount` lines, stopping at the top.
pub open spec fn scrolled_up_view(v: DetailView, amount: nat) -> DetailView {
    DetailView { scroll: if v.scroll >= amount { (v.scroll - amount) as usize } else { 0 }, ..v }
}

/// The view scrolled down by `amount` lines, stopping at the last page.
pub open spec fn scrolled_down_view(v: DetailView, amount: nat) -> DetailView {
    let s = v.scroll + amount;
    DetailView { scroll: (if s <= view_max_scroll(v) { s } else { view_max_scroll(v) as int }) as usize, ..v }
}

/// The view at its first line.
pub open spec fn top_view(v: DetailView) -> DetailView {
    DetailView { scroll: 0, ..v }
}

/// The view at its last page.
pub open spec fn bottom_view(v: DetailView) -> DetailView {
    DetailView { scroll: view_max_scroll(v) as usize, ..v }
}

impl Detail {
    pub closed spec fn view(&self) -> DetailView {
        DetailView {
            lines: lines_view(self.lines@),
            scroll: self.scroll,
            viewport_h: self.viewport_h,
            title: self.title@,
        }
    }

    /// Opens a view of `line`, the `global_line_no`-th line of the stream.
    pub fn new(line: &LogLine, global_line_no: u64) -> (d: Detail)
        ensures
            d@.lines == detail_lines(*line),
            d@.scroll == 0,
            d@.viewport_h == 0,
            d@.title == detail_title(*line, global_line_no),
    {
        let lines = match &line.json {
            Some(v) => pretty_lines(v),
            None => {
                let mut l: Vec<Piece> = Vec::new();
                assert(line_view(l) =~= Seq::<(Seq<char>, Tone)>::empty());
                push_piece(&mut l, piece(line.raw.clone(), Tone::Plain));
                assert(line_view(l) =~= seq![(line.raw@, Tone::Plain)]);
                let mut ls: Vec<Vec<Piece>> = Vec::new();
                assert(lines_view(ls@) =~= Seq::<Seq<(Seq<char>, Tone)>>::empty());
                push_line(&mut ls, l);
                assert(lines_view(ls@) =~= seq![seq![(line.raw@, Tone::Plain)]]);
                ls
            },
        };
        let mut title = String::new();
        push_str(&mut title, " line ");
        push_decimal(&mut title, global_line_no);
        push_str(&mut title, " · ");
        if line.json.is_some() {
            push_str(&mut title, "json");
        } else {
            push_str(&mut title, "text");
        }
        push_str(&mut title, " ");
        Detail { lines, scroll: 0, viewport_h: 0, title }
    }

    fn max_scroll(&self) -> (m: usize)
        ensures
            m == view_max_scroll(self@),
    {
        let h = if self.viewport_h > 0 { self.viewport_h } else { 1 };
        let n = self.lines.len();
        assert(lines_view(self.lines@).len() == self.lines@.len());
        if n > h { n - h } else { 0 }
    }

    /// Scrolls up by `amount` lines, stopping at the top.
    pub fn scroll_up(&mut self, amount: usize)
        ensures
            final(self)@ == scrolled_up_view(old(self)@, amount as nat),
    {
        self.scroll = self.scroll.saturating_sub(amount);
    }

    /// Scrolls down by `amount` lines, stopping at the last page.
    pub fn scroll_down(&mut self, amount: usize)
        requires
            old(self)@.scroll + amount <= usize::MAX,
        ensures
            final(self)@ == scrolled_down_view(old(self)@, amount as nat),
    {
        let m = self.max_scroll();
        let s = self.scroll + amount;
        self.scroll = if s < m { s } else { m };
    }

    pub fn jump_to_top(&mut self)
        ensures
            final(self)@ == top_view(old(self)@),
    {
        self.scroll = 0;
    }

    pub fn jump_to_bottom(&mut self)
        ensures
            final(self)@ == bottom_view(old(self)@),
    {
        self.scroll = self.max_scroll();
    }

    /// Rows in a page (at least one).
    pub fn page(&self) -> (p: usize)
        ensures
            p == page_of(self@),
    {
        if self.viewport_h > 0 { self.viewport_h } else { 1 }
    }

    /// Fits the view to `height` rows and returns the range of lines to show.
    pub fn layout(&mut self, height: usize) -> (r: (usize, usize))
        ensures
            final(self)@.lines == old(self)@.lines,
            final(self)@.title == old(self)@.title,
            final(self)@.viewport_h == height,
            final(self)@.scroll == (if old(self)@.scroll <= max_scroll_of(old(self)@.lines.len(), height as nat) {
                old(self)@.scroll as nat
            } else {
                max_scroll_of(old(self)@.lines.len(), height as nat)
            }),
            r.0 == final(self)@.scroll,
            r.1 == (if final(self)@.scroll + height <= old(self)@.lines.len() {
                final(self)@.scroll + height
            } else {
                old(self)@.lines.len() as int
            }),
    {
        self.viewport_h = height;
        let m = self.max_scroll();
        if self.scroll > m {
            self.scroll = m;
        }
        let n = self.lines.len();
        assert(lines_view(self.lines@).len() == self.lines@.len());
        let end = if self.scroll + height <= n { self.scroll + height } else { n };
        (self.scroll, end)
    }

    /// The pretty-printed lines.
    pub fn lines(&self) -> (l: &Vec<Vec<Piece>>)
        ensures
            lines_view(l@) == self@.lines,
    {
        &self.lines
    }

    /// The first line shown.
    pub fn scroll(&self) -> (s: usize)
        ensures
            s == self@.scroll,
    {
        self.scroll
    }

    /// The title.
    pub fn title(&self) -> (t: &String)
        ensures
            t@ == self@.title,
    {
        &self.title
    }
}

/// A view whose scroll offset is within its lines.
pub open spec fn in_range(v: DetailView) -> bool {
    v.scroll <= view_max_scroll(v)
}

/// Scrolling keeps a detail view within its lines.
pub proof fn lemma_scrolling_stays_in_range(v: DetailView, amount: nat)
    requires
        in_range(v),
        v.lines.len() <= usize::MAX,
    ensures
        in_range(scrolled_up_view(v, amount)),
        in_range(scrolled_down_view(v, amount)),
        in_range(top_view(v)),
        in_range(bottom_view(v)),
{
}

/// The last piece of the last line of some lines.
pub open spec fn final_piece(ls: Seq<Seq<(Seq<char>, Tone)>>) -> (Seq<char>, Tone) {
    ls.last().last()
}

/// A value's pretty lines end in a comma exactly when a comma is due: whether the
/// value is a scalar, an empty container, or an object or array over several lines.
pub proof fn lemma_pretty_comma_at_end(v: Json, depth: nat, prefix: Seq<(Seq<char>, Tone)>, comma: bool)
    ensures
        pretty(v, depth, prefix, comma).len() >= 1,
        pretty(v, depth, prefix, comma).last().len() >= 1,
        comma <==> final_piece(pretty(v, depth, prefix, comma)) == dim(seq![',']),
{
    let ls = pretty(v, depth, prefix, comma);
    match v {
        Json::Object(e) => {
            if e@.len() > 0 {
                let c = closer('}', depth, comma);
                assert(ls.last() == c);
                assert(c.len() >= 2);
                if !comma {
                    assert(c =~= seq![pad(depth), dim(seq!['}'])]);
                    assert(seq!['}'] != seq![',']) by {
                        assert(seq!['}'][0] != seq![','][0]);
                    }
                }
            } else {
                assert(seq!['{', '}'] != seq![',']);
            }
        },
        Json::Array(items) => {
            if items@.len() > 0 {
                let c = closer(']', depth, comma);
                assert(ls.last() == c);
                if !comma {
                    assert(c =~= seq![pad(depth), dim(seq![']'])]);
                    assert(seq![']'] != seq![',']) by {
                        assert(seq![']'][0] != seq![','][0]);
                    }
                }
            } else {
                assert(seq!['[', ']'] != seq![',']);
            }
        },
        Json::Null => {
            assert(null_text() != seq![',']) by {
                assert(null_text().len() != 1);
            }
        },
        _ => {},
    }
}

/// In an object's pretty lines every member but the last ends its last line with a
/// comma, and the last member does not.
pub proof fn lemma_members_separated_by_commas(e: Seq<(String, Json)>, depth: nat, k: int)
    requires
        0 <= k < e.len(),
    ensures
        (k != e.len() - 1) <==> final_piece(member_lines(e.take(k + 1), depth, e.len() - 1)) == dim(seq![',']),
{
    let t = e.take(k + 1);
    assert(t.subrange(0, k) =~= e.take(k));
    assert(t[k] == e[k]);
    let prefix = seq![pad(depth + 1), (json_quoted(e[k].0@), Tone::Key), dim(seq![':', ' '])];
    lemma_pretty_comma_at_end(e[k].1, depth + 1, prefix, k != e.len() - 1);
}

/// In an array's pretty lines every element but the last ends its last line with a
/// comma, and the last element does not.
pub proof fn lemma_elements_separated_by_commas(items: Seq<Json>, depth: nat, k: int)
    requires
        0 <= k < items.len(),
    ensures
        (k != items.len() - 1) <==> final_piece(element_lines(items.take(k + 1), depth, items.len() - 1)) == dim(
            seq![','],
        ),
{
    let t = items.take(k + 1);
    assert(t.subrange(0, k) =~= items.take(k));
    assert(t[k] == items[k]);
    lemma_pretty_comma_at_end(items[k], depth + 1, seq![pad(depth + 1)], k != items.len() - 1);
}

/// A screen rectangle.
#[derive(Clone, Copy, PartialEq, Eq, Structural, Debug)]
pub struct Area {
    pub x: u16,
    pub y: u16,
    pub width: u16,
    pub height: u16,
}

/// The rectangle of `percent_w` by `percent_h` percent of `area`, centered in it.
pub fn centered(area: Area, percent_w: u16, percent_h: u16) -> (r: Area)
    requires
        percent_w <= 100,
        percent_h <= 100,
        area.width * percent_w <= u16::MAX,
        area.height * percent_h <= u16::MAX,
        area.x + area.width <= u16::MAX,
        area.y + area.height <= u16::MAX,
    ensures
        r.width == area.width * percent_w / 100,
        r.height == area.height * percent_h / 100,
        r.x == area.x + (area.width - r.width) / 2,
        r.y == area.y + (area.height - r.height) / 2,
{
    let w = area.width * percent_w / 100;
    let h = area.height * percent_h / 100;
    assert(w <= area.width) by (nonlinear_arith)
        requires
            w == area.width * percent_w / 100,
            percent_w <= 100,
    ;
    assert(h <= area.height) by (nonlinear_arith)
        requires
            h == area.height * percent_h / 100,
            percent_h <= 100,
    ;
    Area { x: area.x + (area.width - w) / 2, y: area.y + (area.height - h) / 2, width: w, height: h }
}

} // verus!
