use vstd::prelude::*;

use crate::json::{push_display, display, resolve, resolve_parts, split_dots, split_path, step_into, Json};
use crate::piece::{pieces_view, Piece, Tone};
use crate::text::{chars_of, push_char, push_str};

verus! {

/// Max chars when a template field resolves to a whole object or array.
pub const CONTAINER_BUDGET: usize = 120;

/// One part of a template: literal text, or a dotted path to fill in.
pub enum Segment {
    Literal(String),
    Field(String),
}

/// A segment as text.
pub enum Seg {
    Lit(Seq<char>),
    Field(Seq<char>),
}

pub open spec fn seg_view(s: Segment) -> Seg {
    match s {
        Segment::Literal(t) => Seg::Lit(t@),
        Segment::Field(p) => Seg::Field(p@),
    }
}

/// A line format like `"{created_at} push {repo.name} by {actor.login}"`.
/// `{a.b.c}` placeholders are dotted paths into the JSON record (array
/// indices are numeric segments, e.g. `{payload.commits.0.message}`).
/// `{{` and `}}` render literal braces.
pub struct Template {
    segments: Vec<Segment>,
}

impl View for Template {
    type V = Seq<Seg>;

    closed spec fn view(&self) -> Seq<Seg> {
        self.segments@.map_values(|s: Segment| seg_view(s))
    }
}

/// Why a template is rejected.
pub enum TemplateError {
    /// A `{` with no `}` after it; holds the text after the `{`.
    Unclosed(Seq<char>),
    /// A `{}` placeholder.
    Empty,
    /// A `}` that closes nothing and is not doubled.
    Unmatched,
}

/// The message for a rejected template.
pub open spec fn template_error_text(e: TemplateError) -> Seq<char> {
    match e {
        TemplateError::Unclosed(path) => "unclosed '{' in template (started before end: \"{"@
            + path + "\")"@,
        TemplateError::Empty => "empty {} placeholder in template"@,
        TemplateError::Unmatched => "unmatched '}' in template (use \"}}\" for a literal brace)"@,
    }
}

/// Position of the first `}`.
pub open spec fn close_pos(t: Seq<char>) -> Option<nat>
    decreases t.len(),
{
    if t.len() == 0 {
        None
    } else if t[0] == '}' {
        Some(0)
    } else {
        match close_pos(t.drop_first()) {
            Some(k) => Some(k + 1),
            None => None,
        }
    }
}

/// Pending literal text as a segment, if there is any.
pub open spec fn flush(lit: Seq<char>) -> Seq<Seg> {
    if lit.len() == 0 {
        Seq::empty()
    } else {
        seq![Seg::Lit(lit)]
    }
}

/// Parses the rest `s` of a template, `lit` being literal text read so far.
pub open spec fn parse_rest(s: Seq<char>, lit: Seq<char>) -> Result<Seq<Seg>, TemplateError>
    decreases s.len(),
{
    if s.len() == 0 {
        Ok(flush(lit))
    } else if s[0] == '{' && s.len() >= 2 && s[1] == '{' {
        parse_rest(s.skip(2), lit.push('{'))
    } else if s[0] == '}' && s.len() >= 2 && s[1] == '}' {
        parse_rest(s.skip(2), lit.push('}'))
    } else if s[0] == '{' {
        proof {
            lemma_close_pos_props(s.drop_first());
        }
        match close_pos(s.drop_first()) {
            None => Err(TemplateError::Unclosed(s.drop_first())),
            Some(k) => if k == 0 {
                Err(TemplateError::Empty)
            } else {
                match parse_rest(s.skip(k + 2 as int), Seq::empty()) {
                    Ok(rest) => Ok(flush(lit) + seq![Seg::Field(s.subrange(1, k + 1 as int))] + rest),
                    Err(e) => Err(e),
                }
            },
        }
    } else if s[0] == '}' {
        Err(TemplateError::Unmatched)
    } else {
        parse_rest(s.drop_first(), lit.push(s[0]))
    }
}

/// The segments of a template text, or why it is rejected.
pub open spec fn parse_template(s: Seq<char>) -> Result<Seq<Seg>, TemplateError> {
    parse_rest(s, Seq::empty())
}

pub open spec fn prepend(p: Seq<Seg>, r: Result<Seq<Seg>, TemplateError>) -> Result<Seq<Seg>, TemplateError> {
    match r {
        Ok(x) => Ok(p + x),
        Err(e) => Err(e),
    }
}

pub proof fn lemma_close_pos_props(t: Seq<char>)
    ensures
        match close_pos(t) {
            Some(k) => k < t.len() && t[k as int] == '}' && forall|j: int| 0 <= j < k ==> t[j] != '}',
            None => forall|j: int| 0 <= j < t.len() ==> t[j] != '}',
        },
    decreases t.len(),
{
    if t.len() > 0 {
        lemma_close_pos_props(t.drop_first());
        if t[0] != '}' {
            match close_pos(t.drop_first()) {
                Some(k) => {
                    assert forall|j: int| 0 <= j < k + 1 implies t[j] != '}' by {
                        if j > 0 {
                            assert(t[j] == t.drop_first()[j - 1]);
                        }
                    }
                },
                None => {
                    assert forall|j: int| 0 <= j < t.len() implies t[j] != '}' by {
                        if j > 0 {
                            assert(t[j] == t.drop_first()[j - 1]);
                        }
                    }
                },
            }
        }
    }
}

proof fn lemma_prepend_assoc(a: Seq<Seg>, b: Seq<Seg>, r: Result<Seq<Seg>, TemplateError>)
    ensures
        prepend(a, prepend(b, r)) == prepend(a + b, r),
{
    match r {
        Ok(x) => {
            assert(a + (b + x) =~= (a + b) + x);
        },
        Err(e) => {},
    }
}

proof fn lemma_close_pos_at(t: Seq<char>, k: nat)
    requires
        k < t.len(),
        t[k as int] == '}',
        forall|j: int| 0 <= j < k ==> t[j] != '}',
    ensures
        close_pos(t) == Some(k),
    decreases k,
{
    if k > 0 {
        lemma_close_pos_at(t.drop_first(), (k - 1) as nat);
    }
}

proof fn lemma_close_pos_none(t: Seq<char>)
    requires
        forall|j: int| 0 <= j < t.len() ==> t[j] != '}',
    ensures
        close_pos(t) is None,
    decreases t.len(),
{
    if t.len() > 0 {
        lemma_close_pos_none(t.drop_first());
    }
}

impl Template {
    pub fn parse(input: &str) -> (r: Result<Template, String>)
        ensures
            match (r, parse_template(input@)) {
                (Ok(t), Ok(segs)) => t@ == segs,
                (Err(msg), Err(e)) => msg@ == template_error_text(e),
                _ => false,
            },
    {
        let cs = chars_of(input);
        let n = cs.len();
        let mut segments: Vec<Segment> = Vec::new();
        let mut lit = String::new();
        let mut i: usize = 0;
        assert(cs@.skip(0) == cs@);
        while i < n
            invariant
                n == cs@.len(),
                cs@ == input@,
                i <= n,
                parse_template(input@) == prepend(
                    segments@.map_values(|s: Segment| seg_view(s)),
                    parse_rest(cs@.skip(i as int), lit@),
                ),
            decreases n - i,
        {
            let ghost segv = segments@.map_values(|s: Segment| seg_view(s));
            let ghost rest = cs@.skip(i as int);
            let c = cs[i];
            assert(rest[0] == c);
            if i + 1 < n {
                assert(rest[1] == cs@[i + 1]);
            }
            if c == '{' && i + 1 < n && cs[i + 1] == '{' {
                assert(rest.skip(2) == cs@.skip(i + 2));
                let ghost l0 = lit@;
                push_char(&mut lit, '{');
                assert(parse_rest(rest, l0) == parse_rest(cs@.skip(i + 2), lit@));
                i += 2;
            } else if c == '}' && i + 1 < n && cs[i + 1] == '}' {
                assert(rest.skip(2) == cs@.skip(i + 2));
                let ghost l0 = lit@;
                push_char(&mut lit, '}');
                assert(parse_rest(rest, l0) == parse_rest(cs@.skip(i + 2), lit@));
                i += 2;
            } else if c == '{' {
                let mut path = String::new();
                let mut j: usize = i + 1;
                while j < n && cs[j] != '}'
                    invariant
                        n == cs@.len(),
                        i < j <= n,
                        path@ == cs@.subrange(i + 1, j as int),
                        forall|m: int| i + 1 <= m < j ==> cs@[m] != '}',
                    decreases n - j,
                {
                    push_char(&mut path, cs[j]);
                    j += 1;
                }
                let ghost t = rest.drop_first();
                assert(t == cs@.subrange(i + 1, n as int));
                if j == n {
                    proof {
                        lemma_close_pos_none(t);
                    }
                    let mut msg = String::new();
                    push_str(&mut msg, "unclosed '{' in template (started before end: \"{");
                    push_str(&mut msg, path.as_str());
                    push_str(&mut msg, "\")");
                    return Err(msg);
                }
                proof {
                    lemma_close_pos_at(t, (j - i - 1) as nat);
                }
                if j == i + 1 {
                    let mut msg = String::new();
                    push_str(&mut msg, "empty {} placeholder in template");
                    return Err(msg);
                }
                assert(rest.skip((j - i - 1) + 2) == cs@.skip(j + 1));
                assert(rest.subrange(1, (j - i - 1) + 1) == path@);
                let ghost l0 = lit@;
                let ghost fv = Seg::Field(path@);
                if !lit.as_str().is_empty() {
                    let l = lit;
                    segments.push(Segment::Literal(l));
                    lit = String::new();
                }
                segments.push(Segment::Field(path));
                assert(lit@ =~= Seq::<char>::empty());
                assert(segments@.map_values(|s: Segment| seg_view(s)) =~= segv + (flush(l0) + seq![fv]));
                proof {
                    let k = (j - i - 1) as nat;
                    assert(parse_rest(rest, l0) == prepend(
                        flush(l0) + seq![fv],
                        parse_rest(cs@.skip(j + 1), Seq::empty()),
                    ));
                    lemma_prepend_assoc(segv, flush(l0) + seq![fv], parse_rest(cs@.skip(j + 1), Seq::empty()));
                }
                i = j + 1;
            } else if c == '}' {
                let mut msg = String::new();
                push_str(&mut msg, "unmatched '}' in template (use \"}}\" for a literal brace)");
                return Err(msg);
            } else {
                assert(rest.drop_first() == cs@.skip(i + 1));
                let ghost l0 = lit@;
                push_char(&mut lit, c);
                assert(parse_rest(rest, l0) == parse_rest(cs@.skip(i + 1), lit@));
                i += 1;
            }
        }
        let ghost segv = segments@.map_values(|s: Segment| seg_view(s));
        let ghost l0 = lit@;
        if !lit.as_str().is_empty() {
            segments.push(Segment::Literal(lit));
        }
        assert(segments@.map_values(|s: Segment| seg_view(s)) =~= segv + flush(l0));
        Ok(Template { segments })
    }
}


/// What a segment renders as against one record: literals dim, field values in the
/// value tone, missing fields as a dim `-`.
pub open spec fn render_seg(seg: Seg, v: Json) -> (Seq<char>, Tone) {
    match seg {
        Seg::Lit(t) => (t, Tone::Dim),
        Seg::Field(p) => match resolve(v, p) {
            Some(x) => (display(x, CONTAINER_BUDGET as nat), Tone::Value),
            None => (seq!['-'], Tone::Dim),
        },
    }
}

/// The rendering of a whole template against one record.
pub open spec fn render_template(segs: Seq<Seg>, v: Json) -> Seq<(Seq<char>, Tone)> {
    segs.map_values(|s: Seg| render_seg(s, v))
}

impl Template {
    /// Render against one record: literals dim, field values in the value tone,
    /// missing fields as a dim `-`.
    pub fn render_spans(&self, v: &Json) -> (out: Vec<Piece>)
        ensures
            pieces_view(out@) == render_template(self@, *v),
    {
        let mut out: Vec<Piece> = Vec::new();
        let mut i: usize = 0;
        while i < self.segments.len()
            invariant
                i <= self.segments@.len(),
                pieces_view(out@) == render_template(self@.take(i as int), *v),
            decreases self.segments@.len() - i,
        {
            let piece = match &self.segments[i] {
                Segment::Literal(t) => Piece { text: t.clone(), tone: Tone::Dim },
                Segment::Field(path) => match lookup(v, path.as_str()) {
                    Some(val) => {
                        let mut text = String::new();
                        push_display(&mut text, val, CONTAINER_BUDGET);
                        Piece { text, tone: Tone::Value }
                    },
                    None => {
                        let mut text = String::new();
                        push_char(&mut text, '-');
                        Piece { text, tone: Tone::Dim }
                    },
                },
            };
            assert(self@[i as int] == seg_view(self.segments@[i as int]));
            assert(crate::piece::piece_view(piece) == render_seg(self@[i as int], *v));
            let ghost before = out@;
            out.push(piece);
            assert(self@.take(i + 1) == self@.take(i as int).push(self@[i as int]));
            assert(pieces_view(out@) =~= pieces_view(before).push(crate::piece::piece_view(out@[i as int])));
            assert(render_template(self@.take(i + 1), *v) =~= render_template(self@.take(i as int), *v).push(render_seg(self@[i as int], *v)));
            i += 1;
        }
        assert(self@.take(self@.len() as int) == self@);
        out
    }
}

/// Resolve a dotted path (`payload.issue.title`, `payload.commits.0.sha`).
pub fn lookup<'a>(v: &'a Json, path: &str) -> (r: Option<&'a Json>)
    ensures
        match r {
            Some(x) => resolve(*v, path@) == Some(*x),
            None => resolve(*v, path@) is None,
        },
{
    let parts = split_path(path);
    let ghost ps = split_dots(path@);
    let mut cur = v;
    let mut i: usize = 0;
    assert(ps.skip(0) == ps);
    while i < parts.len()
        invariant
            i <= parts@.len(),
            parts@.len() == ps.len(),
            ps == split_dots(path@),
            forall|k: int| 0 <= k < parts@.len() ==> #[trigger] parts@[k]@ == ps[k],
            resolve(*v, path@) == resolve_parts(*cur, ps.skip(i as int)),
        decreases parts@.len() - i,
    {
        assert(ps.skip(i as int)[0] == parts@[i as int]@);
        assert(ps.skip(i as int).drop_first() == ps.skip(i + 1));
        match step_into(cur, &parts[i]) {
            Some(w) => {
                cur = w;
            },
            None => {
                return None;
            },
        }
        i += 1;
    }
    Some(cur)
}

/// Text written for a template so that it reads literally: each brace doubled.
pub open spec fn escape_braces(s: Seq<char>) -> Seq<char>
    decreases s.len(),
{
    if s.len() == 0 {
        Seq::empty()
    } else if s[0] == '{' || s[0] == '}' {
        seq![s[0], s[0]] + escape_braces(s.drop_first())
    } else {
        seq![s[0]] + escape_braces(s.drop_first())
    }
}

proof fn lemma_escaped_rest_parses(s: Seq<char>, lit: Seq<char>)
    ensures
        parse_rest(escape_braces(s), lit) == Ok::<Seq<Seg>, TemplateError>(flush(lit + s)),
    decreases s.len(),
{
    if s.len() == 0 {
        assert(lit + s =~= lit);
    } else {
        let e = escape_braces(s);
        let rest = s.drop_first();
        if s[0] == '{' || s[0] == '}' {
            assert(e.skip(2) =~= escape_braces(rest));
            lemma_escaped_rest_parses(rest, lit.push(s[0]));
        } else {
            assert(e.drop_first() =~= escape_braces(rest));
            lemma_escaped_rest_parses(rest, lit.push(s[0]));
        }
        assert(lit.push(s[0]) + rest =~= lit + s);
    }
}

/// `{{` and `}}` are literal braces: any text with its braces doubled parses back to
/// that text as one literal (no segment at all for the empty text).
pub proof fn lemma_doubled_braces_are_literal(s: Seq<char>)
    ensures
        parse_template(escape_braces(s)) == Ok::<Seq<Seg>, TemplateError>(flush(s)),
{
    lemma_escaped_rest_parses(s, Seq::empty());
    assert(Seq::<char>::empty() + s =~= s);
}

/// Missing or null fields render as a dash.
pub proof fn lemma_missing_or_null_renders_dash(path: Seq<char>, v: Json)
    requires
        resolve(v, path) is None || resolve(v, path) == Some(Json::Null),
    ensures
        render_seg(Seg::Field(path), v).0 == seq!['-'],
{
}

/// Whether a template text is well braced, read left to right: `{{` and `}}` are
/// literal braces; any other `{` opens a placeholder that a later `}` closes with at
/// least one character between; any other `}` is stray.
pub open spec fn well_braced(s: Seq<char>) -> bool
    decreases s.len(),
{
    if s.len() == 0 {
        true
    } else if s[0] == '{' && s.len() >= 2 && s[1] == '{' {
        well_braced(s.skip(2))
    } else if s[0] == '}' && s.len() >= 2 && s[1] == '}' {
        well_braced(s.skip(2))
    } else if s[0] == '{' {
        proof {
            lemma_close_pos_props(s.drop_first());
        }
        match close_pos(s.drop_first()) {
            None => false,
            Some(k) => k > 0 && well_braced(s.skip(k + 2 as int)),
        }
    } else if s[0] == '}' {
        false
    } else {
        well_braced(s.drop_first())
    }
}

proof fn lemma_parse_rest_ok(s: Seq<char>, lit: Seq<char>)
    ensures
        parse_rest(s, lit) is Ok <==> well_braced(s),
    decreases s.len(),
{
    if s.len() == 0 {
    } else if s[0] == '{' && s.len() >= 2 && s[1] == '{' {
        lemma_parse_rest_ok(s.skip(2), lit.push('{'));
    } else if s[0] == '}' && s.len() >= 2 && s[1] == '}' {
        lemma_parse_rest_ok(s.skip(2), lit.push('}'));
    } else if s[0] == '{' {
        lemma_close_pos_props(s.drop_first());
        match close_pos(s.drop_first()) {
            None => {},
            Some(k) => if k > 0 {
                lemma_parse_rest_ok(s.skip(k + 2 as int), Seq::empty());
            },
        }
    } else if s[0] == '}' {
    } else {
        lemma_parse_rest_ok(s.drop_first(), lit.push(s[0]));
    }
}

/// A template text parses exactly when it is well braced.
pub proof fn lemma_parse_succeeds_when_well_braced(s: Seq<char>)
    ensures
        parse_template(s) is Ok <==> well_braced(s),
{
    lemma_parse_rest_ok(s, Seq::empty());
}

/// The text of one segment, written back: literal braces doubled, a field in braces.
pub open spec fn seg_text(seg: Seg) -> Seq<char> {
    match seg {
        Seg::Lit(t) => escape_braces(t),
        Seg::Field(p) => seq!['{'] + p + seq!['}'],
    }
}

/// A template written back as text.
pub open spec fn unparse(segs: Seq<Seg>) -> Seq<char>
    decreases segs.len(),
{
    if segs.len() == 0 {
        Seq::empty()
    } else {
        seg_text(segs[0]) + unparse(segs.drop_first())
    }
}

proof fn lemma_unparse_concat(a: Seq<Seg>, b: Seq<Seg>)
    ensures
        unparse(a + b) == unparse(a) + unparse(b),
    decreases a.len(),
{
    if a.len() == 0 {
        assert(a + b =~= b);
        assert(unparse(a) + unparse(b) =~= unparse(b));
    } else {
        assert((a + b)[0] == a[0]);
        assert((a + b).drop_first() =~= a.drop_first() + b);
        lemma_unparse_concat(a.drop_first(), b);
        assert(seg_text(a[0]) + (unparse(a.drop_first()) + unparse(b)) =~= (seg_text(a[0]) + unparse(
            a.drop_first(),
        )) + unparse(b));
    }
}

proof fn lemma_escape_concat(a: Seq<char>, b: Seq<char>)
    ensures
        escape_braces(a + b) == escape_braces(a) + escape_braces(b),
    decreases a.len(),
{
    if a.len() == 0 {
        assert(a + b =~= b);
        assert(escape_braces(a) + escape_braces(b) =~= escape_braces(b));
    } else {
        assert((a + b)[0] == a[0]);
        assert((a + b).drop_first() =~= a.drop_first() + b);
        lemma_escape_concat(a.drop_first(), b);
        let head = if a[0] == '{' || a[0] == '}' { seq![a[0], a[0]] } else { seq![a[0]] };
        assert(head + (escape_braces(a.drop_first()) + escape_braces(b)) =~= (head + escape_braces(
            a.drop_first(),
        )) + escape_braces(b));
    }
}

proof fn lemma_escape_one(c: char)
    ensures
        escape_braces(seq![c]) == (if c == '{' || c == '}' { seq![c, c] } else { seq![c] }),
{
    let e = seq![c];
    assert(e.drop_first() =~= Seq::<char>::empty());
    assert(escape_braces(e.drop_first()) == Seq::<char>::empty());
    assert(seq![c, c] + Seq::<char>::empty() =~= seq![c, c]);
    assert(seq![c] + Seq::<char>::empty() =~= seq![c]);
}

proof fn lemma_parse_rest_round_trip(s: Seq<char>, lit: Seq<char>)
    ensures
        parse_rest(s, lit) matches Ok(segs) ==> unparse(segs) == escape_braces(lit) + s,
    decreases s.len(),
{
    if s.len() == 0 {
        if lit.len() > 0 {
            assert(unparse(flush(lit)) == seg_text(Seg::Lit(lit)) + unparse(flush(lit).drop_first()));
            assert(flush(lit).drop_first() =~= Seq::<Seg>::empty());
        }
        assert(escape_braces(lit) + s =~= escape_braces(lit));
        assert(unparse(flush(lit)) =~= escape_braces(lit));
    } else if (s[0] == '{' || s[0] == '}') && s.len() >= 2 && s[1] == s[0] {
        lemma_parse_rest_round_trip(s.skip(2), lit.push(s[0]));
        lemma_escape_concat(lit, seq![s[0]]);
        assert(lit + seq![s[0]] =~= lit.push(s[0]));
        lemma_escape_one(s[0]);
        assert(escape_braces(lit) + seq![s[0], s[0]] + s.skip(2) =~= escape_braces(lit) + s);
    } else if s[0] == '{' {
        lemma_close_pos_props(s.drop_first());
        match close_pos(s.drop_first()) {
            None => {},
            Some(k) => if k > 0 {
                let rest = s.skip(k + 2 as int);
                lemma_parse_rest_round_trip(rest, Seq::empty());
                match parse_rest(rest, Seq::empty()) {
                    Ok(r) => {
                        let p = s.subrange(1, k + 1 as int);
                        let f = seq![Seg::Field(p)];
                        lemma_unparse_concat(flush(lit) + f, r);
                        lemma_unparse_concat(flush(lit), f);
                        assert(f.drop_first() =~= Seq::<Seg>::empty());
                        assert(unparse(f.drop_first()) == Seq::<char>::empty());
                        assert(f[0] == Seg::Field(p));
                        assert(unparse(f) =~= seq!['{'] + p + seq!['}']);
                        if lit.len() > 0 {
                            assert(flush(lit).drop_first() =~= Seq::<Seg>::empty());
                            assert(unparse(flush(lit)) =~= escape_braces(lit));
                        } else {
                            assert(lit =~= Seq::<char>::empty());
                            assert(unparse(flush(lit)) =~= escape_braces(lit));
                        }
                        assert(Seq::<char>::empty() + rest =~= rest);
                        assert(s.drop_first()[k as int] == '}');
                        assert(escape_braces(lit) + (seq!['{'] + p + seq!['}']) + rest =~= escape_braces(lit) + s);
                    },
                    Err(_) => {},
                }
            },
        }
    } else if s[0] == '}' {
    } else {
        lemma_parse_rest_round_trip(s.drop_first(), lit.push(s[0]));
        lemma_escape_concat(lit, seq![s[0]]);
        assert(lit + seq![s[0]] =~= lit.push(s[0]));
        lemma_escape_one(s[0]);
        assert(escape_braces(lit) + seq![s[0]] + s.drop_first() =~= escape_braces(lit) + s);
    }
}

/// A parsed template written back (literal braces doubled, fields in braces) is the
/// text it was parsed from.
pub proof fn lemma_parse_round_trip(s: Seq<char>)
    ensures
        parse_template(s) matches Ok(segs) ==> unparse(segs) == s,
{
    lemma_parse_rest_round_trip(s, Seq::empty());
    assert(escape_braces(Seq::<char>::empty()) + s =~= s);
}

/// Segments as a parse leaves them: every literal non-empty, no two literals next to
/// each other, every field path non-empty and free of `}`.
pub open spec fn segments_well_formed(segs: Seq<Seg>) -> bool {
    &&& forall|i: int| 0 <= i < segs.len() ==> (#[trigger] segs[i] matches Seg::Lit(t) ==> t.len() > 0)
    &&& forall|i: int|
        0 <= i < segs.len() ==> (#[trigger] segs[i] matches Seg::Field(p) ==> p.len() > 0 && !p.contains('}'))
    &&& forall|i: int| 0 <= i < segs.len() - 1 ==> !(#[trigger] segs[i] is Lit && segs[i + 1] is Lit)
}

proof fn lemma_parse_rest_well_formed(s: Seq<char>, lit: Seq<char>)
    ensures
        parse_rest(s, lit) matches Ok(segs) ==> segments_well_formed(segs),
    decreases s.len(),
{
    if s.len() == 0 {
    } else if s[0] == '{' && s.len() >= 2 && s[1] == '{' {
        lemma_parse_rest_well_formed(s.skip(2), lit.push('{'));
    } else if s[0] == '}' && s.len() >= 2 && s[1] == '}' {
        lemma_parse_rest_well_formed(s.skip(2), lit.push('}'));
    } else if s[0] == '{' {
        lemma_close_pos_props(s.drop_first());
        match close_pos(s.drop_first()) {
            None => {},
            Some(k) => if k > 0 {
                let rest = s.skip(k + 2 as int);
                lemma_parse_rest_well_formed(rest, Seq::empty());
                match parse_rest(rest, Seq::empty()) {
                    Ok(r) => {
                        let p = s.subrange(1, k + 1 as int);
                        let f = flush(lit).push(Seg::Field(p));
                        let segs = flush(lit) + seq![Seg::Field(p)] + r;
                        assert(segs =~= f + r);
                        assert(!p.contains('}')) by {
                            if p.contains('}') {
                                let j = choose|j: int| 0 <= j < p.len() && p[j] == '}';
                                assert(s.drop_first()[j] == p[j]);
                            }
                        }
                        assert forall|i: int| 0 <= i < segs.len() implies (#[trigger] segs[i] matches Seg::Lit(t)
                            ==> t.len() > 0) by {
                            if i >= f.len() {
                                assert(segs[i] == r[i - f.len()]);
                            }
                        }
                        assert forall|i: int| 0 <= i < segs.len() implies (#[trigger] segs[i] matches Seg::Field(
                            q,
                        ) ==> q.len() > 0 && !q.contains('}')) by {
                            if i >= f.len() {
                                assert(segs[i] == r[i - f.len()]);
                            }
                        }
                        assert forall|i: int| 0 <= i < segs.len() - 1 implies !(#[trigger] segs[i] is Lit
                            && segs[i + 1] is Lit) by {
                            if i >= f.len() {
                                assert(segs[i] == r[i - f.len()]);
                                assert(segs[i + 1] == r[i + 1 - f.len()]);
                            } else if i == f.len() - 1 {
                                assert(segs[i] == Seg::Field(p));
                            } else {
                                assert(segs[i + 1] == f[i + 1]);
                            }
                        }
                    },
                    Err(_) => {},
                }
            },
        }
    } else if s[0] == '}' {
    } else {
        lemma_parse_rest_well_formed(s.drop_first(), lit.push(s[0]));
    }
}

/// A parsed template's segments are well formed: literals non-empty and never
/// adjacent, field paths non-empty and free of `}`.
pub proof fn lemma_parsed_segments_well_formed(s: Seq<char>)
    ensures
        parse_template(s) matches Ok(segs) ==> segments_well_formed(segs),
{
    lemma_parse_rest_well_formed(s, Seq::empty());
}

} // verus!
