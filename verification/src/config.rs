use std::str::FromStr;

use ratatui::style::Color;

use vstd::prelude::*;

use crate::format::{lookup, parse_template, render_template, template_error_text, Seg, Template};
use crate::json::{json_eq, json_equal, resolve, Json, NumKey, Number};
use crate::piece::{pieces_view, Piece, Tone};
use crate::text::{decimal, push_decimal, push_str};

verus! {

/// A terminal color, as a rule names it: one of the named colors, an index into the
/// terminal's palette, or red, green and blue components.
#[derive(Clone, Copy, PartialEq, Eq, Structural, Debug)]
pub enum TermColor {
    Reset,
    Black,
    Red,
    Green,
    Yellow,
    Blue,
    Magenta,
    Cyan,
    Gray,
    DarkGray,
    LightRed,
    LightGreen,
    LightYellow,
    LightBlue,
    LightMagenta,
    LightCyan,
    White,
    Rgb(u8, u8, u8),
    Indexed(u8),
}

/// The color `TermColor::from_str` reads a name as, if it reads one.
pub uninterp spec fn color_parse(name: Seq<char>) -> Option<TermColor>;

/// `TermColor::from_str`: the color a name denotes, if it names one (the
/// name `color_parse`), each of ratatui's colors given as the `TermColor` of the same
/// name.
#[verifier::external_body]
fn color_from_str(name: &str) -> (r: Option<TermColor>)
    ensures
        r == color_parse(name@),
{
    Color::from_str(name).ok().map(|c| match c {
        Color::Reset => TermColor::Reset, Color::Black => TermColor::Black, Color::Red => TermColor::Red,
        Color::Green => TermColor::Green, Color::Yellow => TermColor::Yellow, Color::Blue => TermColor::Blue,
        Color::Magenta => TermColor::Magenta, Color::Cyan => TermColor::Cyan, Color::Gray => TermColor::Gray,
        Color::DarkGray => TermColor::DarkGray, Color::LightRed => TermColor::LightRed,
        Color::LightGreen => TermColor::LightGreen, Color::LightYellow => TermColor::LightYellow,
        Color::LightBlue => TermColor::LightBlue, Color::LightMagenta => TermColor::LightMagenta,
        Color::LightCyan => TermColor::LightCyan, Color::White => TermColor::White,
        Color::Rgb(r, g, b) => TermColor::Rgb(r, g, b), Color::Indexed(i) => TermColor::Indexed(i),
    })
}

/// An `equals` value as written in the config file.
pub enum TomlValue {
    String(String),
    Integer(i64),
    /// A float: its IEEE-754 bits and the text a JSON number of that value prints as.
    Float { bits: u64, text: String },
    Boolean(bool),
    /// Any other kind of value, by its type name (`array`, `table`, ...).
    Other(String),
}

/// The `when` of a rule, as written.
pub struct RawWhen {
    pub path: String,
    pub equals: Option<TomlValue>,
    pub contains: Option<String>,
    pub exists: Option<bool>,
}

/// A `[[rule]]` table, as written.
pub struct RawRule {
    pub when: RawWhen,
    pub format: String,
    pub color: Option<String>,
}

/// The `[fallback]` table, as written.
pub struct RawFormat {
    pub format: String,
    pub color: Option<String>,
}

/// A rules file, as written.
pub struct RawConfig {
    pub rule: Vec<RawRule>,
    pub fallback: Option<RawFormat>,
}

/// How a rule tests the value at its path.
pub enum Matcher {
    Equals(Json),
    Contains(String),
    Exists,
}

/// A matcher as values.
pub enum MatcherView {
    Equals(Json),
    Contains(Seq<char>),
    Exists,
}

pub open spec fn matcher_view(m: Matcher) -> MatcherView {
    match m {
        Matcher::Equals(v) => MatcherView::Equals(v),
        Matcher::Contains(s) => MatcherView::Contains(s@),
        Matcher::Exists => MatcherView::Exists,
    }
}

/// Whether `needle` occurs in `s`.
pub open spec fn has_substring(s: Seq<char>, needle: Seq<char>) -> bool {
    exists|i: int| 0 <= i && i + needle.len() <= s.len() && #[trigger] s.subrange(i, i + needle.len()) == needle
}

/// Whether the value found at a rule's path (if any) satisfies the matcher.
pub open spec fn matches(m: MatcherView, found: Option<Json>) -> bool {
    match m {
        MatcherView::Equals(want) => match found {
            Some(v) => json_eq(v, want),
            None => false,
        },
        MatcherView::Contains(needle) => match found {
            Some(Json::Str(s)) => has_substring(s@, needle),
            _ => false,
        },
        MatcherView::Exists => found is Some,
    }
}

/// Whether `needle` occurs in `s`.
fn contains_text(s: &[char], needle: &[char]) -> (r: bool)
    ensures
        r == has_substring(s@, needle@),
{
    if needle.len() > s.len() {
        return false;
    }
    let last = s.len() - needle.len();
    let mut i: usize = 0;
    while i <= last
        invariant
            last + needle@.len() == s@.len(),
            i <= last + 1,
            forall|j: int| 0 <= j < i ==> #[trigger] s@.subrange(j, j + needle@.len()) != needle@,
        decreases last + 1 - i,
    {
        let mut k: usize = 0;
        while k < needle.len() && s[i + k] == needle[k]
            invariant
                i <= last,
                last + needle@.len() == s@.len(),
                s@.len() == s.len(),
                k <= needle@.len(),
                forall|q: int| 0 <= q < k ==> s@[i + q] == needle@[q],
            decreases needle@.len() - k,
        {
            k += 1;
        }
        if k == needle.len() {
            assert(s@.subrange(i as int, i + needle@.len()) =~= needle@);
            return true;
        }
        assert(s@.subrange(i as int, i + needle@.len())[k as int] != needle@[k as int]);
        i += 1;
    }
    proof {
        assert forall|j: int| 0 <= j && j + needle@.len() <= s@.len() implies #[trigger] s@.subrange(j, j + needle@.len()) != needle@ by {
            assert(j < i);
        }
    }
    false
}

impl Matcher {
    fn matches(&self, found: Option<&Json>) -> (r: bool)
        ensures
            r == matches(
                matcher_view(*self),
                match found {
                    Some(v) => Some(*v),
                    None => None,
                },
            ),
    {
        match self {
            Matcher::Equals(want) => match found {
                Some(v) => json_equal(v, want),
                None => false,
            },
            Matcher::Contains(needle) => match found {
                Some(Json::Str(s)) => {
                    let sc = crate::text::chars_of(s.as_str());
                    let nc = crate::text::chars_of(needle.as_str());
                    contains_text(sc.as_slice(), nc.as_slice())
                },
                _ => false,
            },
            Matcher::Exists => found.is_some(),
        }
    }
}


/// Whether a double's bits encode a finite value.
pub open spec fn is_finite_bits(b: u64) -> bool {
    (b >> 52u64) & 0x7ffu64 != 0x7ffu64
}

/// How a JSON number built from an integer compares.
pub open spec fn int_key(i: i64) -> NumKey {
    if i < 0 {
        NumKey::NegInt(i)
    } else {
        NumKey::PosInt(i as u64)
    }
}

/// The decimal text of an integer.
pub open spec fn int_text(i: i64) -> Seq<char> {
    if i < 0 {
        seq!['-'] + decimal((-(i as int)) as nat)
    } else {
        decimal(i as nat)
    }
}

/// The message for an `equals` value that is not a string, number or boolean.
pub open spec fn equals_type_error(kind: Seq<char>) -> Seq<char> {
    "`equals` must be a string, number, or boolean (got a "@ + kind + ")"@
}

/// `j` is the JSON form of the config value `v` (a float that is not finite becomes
/// null); `None` when `v` has no JSON form.
pub open spec fn json_of_toml(v: TomlValue, j: Json) -> bool {
    match v {
        TomlValue::String(s) => j is Str && j->Str_0@ == s@,
        TomlValue::Integer(i) => j is Number && j->Number_0.key == int_key(i) && j->Number_0.text@ == int_text(i),
        TomlValue::Float { bits, text } => if is_finite_bits(bits) {
            j is Number && j->Number_0.key == NumKey::Float(bits) && j->Number_0.text@ == text@
        } else {
            j is Null
        },
        TomlValue::Boolean(b) => j == Json::Bool(b),
        TomlValue::Other(_) => false,
    }
}

fn int_number(i: i64) -> (n: Number)
    ensures
        n.key == int_key(i),
        n.text@ == int_text(i),
{
    let mut text = String::new();
    if i < 0 {
        crate::text::push_char(&mut text, '-');
        let m: u64 = ((-(i + 1)) as u64) + 1;
        push_decimal(&mut text, m);
        Number { text, key: NumKey::NegInt(i) }
    } else {
        push_decimal(&mut text, i as u64);
        Number { text, key: NumKey::PosInt(i as u64) }
    }
}

/// The JSON form of a config value for `equals`.
fn toml_to_json(v: &TomlValue) -> (r: Result<Json, String>)
    ensures
        match r {
            Ok(j) => json_of_toml(*v, j),
            Err(msg) => v is Other && msg@ == equals_type_error(v->Other_0@),
        },
{
    match v {
        TomlValue::String(s) => Ok(Json::Str(s.clone())),
        TomlValue::Integer(i) => Ok(Json::Number(int_number(*i))),
        TomlValue::Float { bits, text } => {
            if (*bits >> 52u64) & 0x7ffu64 != 0x7ffu64 {
                Ok(Json::Number(Number { text: text.clone(), key: NumKey::Float(*bits) }))
            } else {
                Ok(Json::Null)
            }
        },
        TomlValue::Boolean(b) => Ok(Json::Bool(*b)),
        TomlValue::Other(t) => {
            let mut msg = String::new();
            push_str(&mut msg, "`equals` must be a string, number, or boolean (got a ");
            push_str(&mut msg, t.as_str());
            push_str(&mut msg, ")");
            Err(msg)
        },
    }
}

/// The message for a color name that is not known.
pub open spec fn color_error_text(name: Seq<char>) -> Seq<char> {
    "unknown color \""@ + name
        + "\" (try: red, green, yellow, blue, magenta, cyan, gray, lightgreen, ..., or \"#rrggbb\")"@
}

/// Why a color setting is rejected, if it is.
pub open spec fn color_error(c: Option<String>) -> Option<Seq<char>> {
    match c {
        Some(n) => if color_parse(n@) is Some {
            None
        } else {
            Some(color_error_text(n@))
        },
        None => None,
    }
}

/// The color a color setting names: none when unset.
pub open spec fn named_color(c: Option<String>) -> Option<TermColor> {
    match c {
        Some(n) => color_parse(n@),
        None => None,
    }
}

/// The color of a rule: none when unset, the named color otherwise.
fn parse_color(name: &Option<String>) -> (r: Result<Option<TermColor>, String>)
    ensures
        match r {
            Ok(c) => color_error(*name) is None && c == named_color(*name),
            Err(msg) => color_error(*name) == Some(msg@),
        },
{
    match name {
        None => Ok(None),
        Some(n) => match color_from_str(n.as_str()) {
            Some(c) => Ok(Some(c)),
            None => {
                let mut msg = String::new();
                push_str(&mut msg, "unknown color \"");
                push_str(&mut msg, n.as_str());
                push_str(
                    &mut msg,
                    "\" (try: red, green, yellow, blue, magenta, cyan, gray, lightgreen, ..., or \"#rrggbb\")",
                );
                Err(msg)
            },
        },
    }
}


/// One display rule: where to look, what to test, how to format.
pub struct Rule {
    path: String,
    matcher: Matcher,
    template: Template,
    color: Option<TermColor>,
}

/// A rule as values.
pub struct RuleView {
    pub path: Seq<char>,
    pub matcher: MatcherView,
    pub template: Seq<Seg>,
    pub color: Option<TermColor>,
}

impl Rule {
    pub closed spec fn view(&self) -> RuleView {
        RuleView {
            path: self.path@,
            matcher: matcher_view(self.matcher),
            template: self.template@,
            color: self.color,
        }
    }
}

/// Compiled display rules: first matching rule formats the line, otherwise
/// the fallback does; no match at all falls through to raw JSON rendering.
pub struct RuleSet {
    rules: Vec<Rule>,
    fallback: Option<(Template, Option<TermColor>)>,
}

/// Rules as values.
pub struct RuleSetView {
    pub rules: Seq<RuleView>,
    pub fallback: Option<(Seq<Seg>, Option<TermColor>)>,
}

/// A formatted line: its pieces, and the color for its field values.
pub struct Formatted {
    pub pieces: Vec<Piece>,
    pub color: Option<TermColor>,
}

/// The first rule from `start` on whose matcher accepts the value at its path.
pub open spec fn first_match(rules: Seq<RuleView>, v: Json, start: int) -> Option<int>
    decreases rules.len() - start,
{
    if start < 0 || start >= rules.len() {
        None
    } else if matches(rules[start].matcher, resolve(v, rules[start].path)) {
        Some(start)
    } else {
        first_match(rules, v, start + 1)
    }
}

/// How a record is formatted: by the first matching rule, else by the fallback, else
/// not at all.
pub open spec fn formatted(set: RuleSetView, v: Json) -> Option<(Seq<(Seq<char>, Tone)>, Option<TermColor>)> {
    match first_match(set.rules, v, 0) {
        Some(i) => Some((render_template(set.rules[i].template, v), set.rules[i].color)),
        None => match set.fallback {
            Some((t, c)) => Some((render_template(t, v), c)),
            None => None,
        },
    }
}

pub open spec fn ambiguous_text() -> Seq<char> {
    "`when` needs exactly one of `equals`, `contains`, or `exists = true`"@
}

/// Why a `when` is rejected, if it is.
pub open spec fn when_error(w: RawWhen) -> Option<Seq<char>> {
    if w.equals is Some && w.contains is None && w.exists is None {
        match w.equals.unwrap() {
            TomlValue::Other(t) => Some(equals_type_error(t@)),
            _ => None,
        }
    } else if w.equals is None && w.contains is Some && w.exists is None {
        None
    } else if w.equals is None && w.contains is None && w.exists == Some(true) {
        None
    } else {
        Some(ambiguous_text())
    }
}

/// Why a rule is rejected, if it is: its matcher, then its format, then its color.
pub open spec fn rule_error(r: RawRule) -> Option<Seq<char>> {
    match when_error(r.when) {
        Some(e) => Some(e),
        None => match parse_template(r.format@) {
            Err(e) => Some(template_error_text(e)),
            Ok(_) => color_error(r.color),
        },
    }
}

pub open spec fn rule_prefix(n: nat) -> Seq<char> {
    "rule "@ + decimal(n) + ": "@
}

/// The error of the first rejected rule from `start` on, naming it by its number.
pub open spec fn rules_error(rules: Seq<RawRule>, start: int) -> Option<Seq<char>>
    decreases rules.len() - start,
{
    if start < 0 || start >= rules.len() {
        None
    } else {
        match rule_error(rules[start]) {
            Some(e) => Some(rule_prefix((start + 1) as nat) + e),
            None => rules_error(rules, start + 1),
        }
    }
}

/// Why the fallback is rejected, if it is.
pub open spec fn fallback_error(f: Option<RawFormat>) -> Option<Seq<char>> {
    match f {
        None => None,
        Some(f) => match parse_template(f.format@) {
            Err(e) => Some("fallback: "@ + template_error_text(e)),
            Ok(_) => match color_error(f.color) {
                Some(e) => Some("fallback: "@ + e),
                None => None,
            },
        },
    }
}

/// Why a config is rejected, if it is: the first bad rule, else a bad fallback.
pub open spec fn config_error(raw: RawConfig) -> Option<Seq<char>> {
    match rules_error(raw.rule@, 0) {
        Some(e) => Some(e),
        None => fallback_error(raw.fallback),
    }
}

/// The matcher a valid `when` compiles to.
pub open spec fn compiled_matcher(w: RawWhen, m: MatcherView) -> bool {
    if w.equals is Some && w.contains is None && w.exists is None {
        m is Equals && json_of_toml(w.equals.unwrap(), m->Equals_0)
    } else if w.equals is None && w.contains is Some && w.exists is None {
        m == MatcherView::Contains(w.contains.unwrap()@)
    } else {
        m == MatcherView::Exists
    }
}

/// The rule a valid raw rule compiles to.
pub open spec fn compiled_rule(r: RawRule, c: RuleView) -> bool {
    &&& c.path == r.when.path@
    &&& compiled_matcher(r.when, c.matcher)
    &&& parse_template(r.format@) == Ok::<Seq<Seg>, crate::format::TemplateError>(c.template)
    &&& c.color == named_color(r.color)
}

/// The fallback a valid raw fallback compiles to.
pub open spec fn compiled_fallback(f: Option<RawFormat>, c: Option<(Seq<Seg>, Option<TermColor>)>) -> bool {
    match (f, c) {
        (None, None) => true,
        (Some(f), Some((t, col))) => parse_template(f.format@) == Ok::<Seq<Seg>, crate::format::TemplateError>(t)
            && col == named_color(f.color),
        _ => false,
    }
}

fn compile_matcher(w: &RawWhen) -> (r: Result<Matcher, String>)
    ensures
        match r {
            Ok(m) => when_error(*w) is None && compiled_matcher(*w, matcher_view(m)),
            Err(e) => when_error(*w) == Some(e@),
        },
{
    match (&w.equals, &w.contains, &w.exists) {
        (Some(v), None, None) => match toml_to_json(v) {
            Ok(j) => Ok(Matcher::Equals(j)),
            Err(e) => Err(e),
        },
        (None, Some(s), None) => Ok(Matcher::Contains(s.clone())),
        (None, None, Some(true)) => Ok(Matcher::Exists),
        _ => {
            let mut msg = String::new();
            push_str(
                &mut msg,
                "`when` needs exactly one of `equals`, `contains`, or `exists = true`",
            );
            Err(msg)
        },
    }
}

fn with_prefix(prefix: &String, e: &String) -> (r: String)
    ensures
        r@ == prefix@ + e@,
{
    let mut r = prefix.clone();
    push_str(&mut r, e.as_str());
    r
}

impl RuleSet {
    pub closed spec fn view(&self) -> RuleSetView {
        RuleSetView {
            rules: self.rules@.map_values(|r: Rule| r@),
            fallback: match self.fallback {
                Some((t, c)) => Some((t@, c)),
                None => None,
            },
        }
    }

    /// No rules and no fallback: every record falls through to raw rendering.
    pub fn new() -> (s: RuleSet)
        ensures
            s@.rules.len() == 0,
            s@.fallback is None,
    {
        RuleSet { rules: Vec::new(), fallback: None }
    }

    /// A rule set that formats every JSON line with one template (`--format`).
    pub fn from_template(template: Template) -> (s: RuleSet)
        ensures
            s@.rules.len() == 0,
            s@.fallback == Some((template@, None::<TermColor>)),
    {
        RuleSet { rules: Vec::new(), fallback: Some((template, None)) }
    }

    /// Compiles a rules file: each rule needs exactly one matcher, a valid format and
    /// a known color; errors name the rule (`rule 2: ...`) or the fallback.
    pub fn compile(raw: &RawConfig) -> (r: Result<RuleSet, String>)
        ensures
            match r {
                Ok(set) => {
                    &&& config_error(*raw) is None
                    &&& set@.rules.len() == raw.rule@.len()
                    &&& forall|i: int| 0 <= i < raw.rule@.len() ==> compiled_rule(#[trigger] raw.rule@[i], set@.rules[i])
                    &&& compiled_fallback(raw.fallback, set@.fallback)
                },
                Err(msg) => config_error(*raw) == Some(msg@),
            },
    {
        let mut rules: Vec<Rule> = Vec::new();
        let mut i: usize = 0;
        while i < raw.rule.len()
            invariant
                i <= raw.rule@.len(),
                rules@.len() == i,
                rules_error(raw.rule@, 0) == rules_error(raw.rule@, i as int),
                forall|j: int| 0 <= j < i ==> compiled_rule(#[trigger] raw.rule@[j], rules@[j]@),
            decreases raw.rule@.len() - i,
        {
            let r = &raw.rule[i];
            let mut prefix = String::new();
            push_str(&mut prefix, "rule ");
            push_decimal(&mut prefix, (i + 1) as u64);
            push_str(&mut prefix, ": ");
            assert(prefix@ == rule_prefix((i + 1) as nat));
            let matcher = match compile_matcher(&r.when) {
                Ok(m) => m,
                Err(e) => {
                    return Err(with_prefix(&prefix, &e));
                },
            };
            let template = match Template::parse(r.format.as_str()) {
                Ok(t) => t,
                Err(e) => {
                    return Err(with_prefix(&prefix, &e));
                },
            };
            let color = match parse_color(&r.color) {
                Ok(c) => c,
                Err(e) => {
                    return Err(with_prefix(&prefix, &e));
                },
            };
            let rule = Rule { path: r.when.path.clone(), matcher, template, color };
            assert(compiled_rule(raw.rule@[i as int], rule@));
            rules.push(rule);
            i += 1;
        }
        let fallback = match &raw.fallback {
            None => None,
            Some(f) => {
                let mut prefix = String::new();
                push_str(&mut prefix, "fallback: ");
                let template = match Template::parse(f.format.as_str()) {
                    Ok(t) => t,
                    Err(e) => {
                        return Err(with_prefix(&prefix, &e));
                    },
                };
                let color = match parse_color(&f.color) {
                    Ok(c) => c,
                    Err(e) => {
                        return Err(with_prefix(&prefix, &e));
                    },
                };
                Some((template, color))
            },
        };
        let set = RuleSet { rules, fallback };
        assert forall|j: int| 0 <= j < raw.rule@.len() implies compiled_rule(#[trigger] raw.rule@[j], set@.rules[j]) by {
            assert(set@.rules[j] == rules@[j]@);
        }
        Ok(set)
    }

    /// Formats one record: by the first rule whose matcher accepts the value at its
    /// path, else by the fallback; `None` when neither applies.
    pub fn format_line(&self, v: &Json) -> (r: Option<Formatted>)
        ensures
            match (r, formatted(self@, *v)) {
                (Some(f), Some((ps, c))) => pieces_view(f.pieces@) == ps && f.color == c,
                (None, None) => true,
                _ => false,
            },
    {
        let mut i: usize = 0;
        while i < self.rules.len()
            invariant
                i <= self.rules@.len(),
                first_match(self@.rules, *v, 0) == first_match(self@.rules, *v, i as int),
            decreases self.rules@.len() - i,
        {
            let rule = &self.rules[i];
            assert(self@.rules[i as int] == rule@);
            if rule.matcher.matches(lookup(v, rule.path.as_str())) {
                let pieces = rule.template.render_spans(v);
                return Some(Formatted { pieces, color: rule.color });
            }
            i += 1;
        }
        match &self.fallback {
            Some((t, c)) => Some(Formatted { pieces: t.render_spans(v), color: *c }),
            None => None,
        }
    }
}

/// Whether rule `r` accepts record `v`.
pub open spec fn rule_matches(r: RuleView, v: Json) -> bool {
    matches(r.matcher, resolve(v, r.path))
}

proof fn lemma_first_match_from(rules: Seq<RuleView>, v: Json, start: int, i: int)
    requires
        0 <= start <= i < rules.len(),
        rule_matches(rules[i], v),
        forall|j: int| start <= j < i ==> !rule_matches(#[trigger] rules[j], v),
    ensures
        first_match(rules, v, start) == Some(i),
    decreases i - start,
{
    if start < i {
        lemma_first_match_from(rules, v, start + 1, i);
    }
}

proof fn lemma_no_match_from(rules: Seq<RuleView>, v: Json, start: int)
    requires
        0 <= start <= rules.len(),
        forall|j: int| start <= j < rules.len() ==> !rule_matches(#[trigger] rules[j], v),
    ensures
        first_match(rules, v, start) is None,
    decreases rules.len() - start,
{
    if start < rules.len() {
        lemma_no_match_from(rules, v, start + 1);
    }
}

/// First matching rule wins: the rule at `i` formats the record when it matches and
/// no rule before it does, whatever the rules after it and the fallback.
pub proof fn lemma_first_matching_rule_wins(set: RuleSetView, v: Json, i: int)
    requires
        0 <= i < set.rules.len(),
        rule_matches(set.rules[i], v),
        forall|j: int| 0 <= j < i ==> !rule_matches(#[trigger] set.rules[j], v),
    ensures
        formatted(set, v) == Some((render_template(set.rules[i].template, v), set.rules[i].color)),
{
    lemma_first_match_from(set.rules, v, 0, i);
}

/// When no rule matches, the fallback formats the record; without a fallback
/// nothing does.
pub proof fn lemma_fallback_when_no_rule_matches(set: RuleSetView, v: Json)
    requires
        forall|j: int| 0 <= j < set.rules.len() ==> !rule_matches(#[trigger] set.rules[j], v),
    ensures
        formatted(set, v) == (match set.fallback {
            Some((t, c)) => Some((render_template(t, v), c)),
            None => None,
        }),
{
    lemma_no_match_from(set.rules, v, 0);
}

proof fn lemma_rules_error_from(rules: Seq<RawRule>, start: int, n: int)
    requires
        0 <= start <= n < rules.len(),
        rule_error(rules[n]) is Some,
        forall|j: int| start <= j < n ==> (#[trigger] rule_error(rules[j])) is None,
    ensures
        rules_error(rules, start) == Some(rule_prefix((n + 1) as nat) + rule_error(rules[n]).unwrap()),
    decreases n - start,
{
    if start < n {
        lemma_rules_error_from(rules, start + 1, n);
    }
}

proof fn lemma_rules_fine_from(rules: Seq<RawRule>, start: int)
    requires
        0 <= start <= rules.len(),
        forall|j: int| start <= j < rules.len() ==> (#[trigger] rule_error(rules[j])) is None,
    ensures
        rules_error(rules, start) is None,
    decreases rules.len() - start,
{
    if start < rules.len() {
        lemma_rules_fine_from(rules, start + 1);
    }
}

/// A config is rejected on its first bad rule, the message naming it by number
/// (`rule n: ...`); when every rule is good, only a bad fallback rejects it
/// (`fallback: ...`); otherwise it compiles.
pub proof fn lemma_config_error_names_first_bad_rule(raw: RawConfig, n: int)
    ensures
        0 <= n < raw.rule@.len() && rule_error(raw.rule@[n]) is Some && (forall|j: int|
            0 <= j < n ==> (#[trigger] rule_error(raw.rule@[j])) is None) ==> config_error(raw) == Some(
            rule_prefix((n + 1) as nat) + rule_error(raw.rule@[n]).unwrap(),
        ),
        (forall|j: int| 0 <= j < raw.rule@.len() ==> (#[trigger] rule_error(raw.rule@[j])) is None)
            ==> config_error(raw) == fallback_error(raw.fallback),
        fallback_error(raw.fallback) matches Some(e) ==> e.take(10) == "fallback: "@,
{
    if 0 <= n < raw.rule@.len() && rule_error(raw.rule@[n]) is Some && (forall|j: int|
        0 <= j < n ==> (#[trigger] rule_error(raw.rule@[j])) is None) {
        lemma_rules_error_from(raw.rule@, 0, n);
    }
    if forall|j: int| 0 <= j < raw.rule@.len() ==> (#[trigger] rule_error(raw.rule@[j])) is None {
        lemma_rules_fine_from(raw.rule@, 0);
    }
    reveal_strlit("fallback: ");
    if let Some(f) = raw.fallback {
        match parse_template(f.format@) {
            Err(e) => {
                assert(("fallback: "@ + template_error_text(e)).take(10) =~= "fallback: "@);
            },
            Ok(_) => match color_error(f.color) {
                Some(e) => {
                    assert(("fallback: "@ + e).take(10) =~= "fallback: "@);
                },
                None => {},
            },
        }
    }
}

/// An `equals` matcher on a boolean or a string accepts exactly the same boolean or
/// the same text at the path, a value of another kind never, and nothing when the
/// path is missing.
pub proof fn lemma_equals_matches_by_value(want: Json, f: Json)
    ensures
        !matches(MatcherView::Equals(want), None),
        (want is Bool && f is Bool) ==> (matches(MatcherView::Equals(want), Some(f)) <==> f->Bool_0
            == want->Bool_0),
        (want is Str && f is Str) ==> (matches(MatcherView::Equals(want), Some(f)) <==> f->Str_0@ == want->Str_0@),
        (want is Bool && !(f is Bool)) ==> !matches(MatcherView::Equals(want), Some(f)),
{
    crate::json::lemma_json_eq_by_value(f, want);
}

} // verus!
