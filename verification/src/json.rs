use vstd::prelude::*;

use serde_json::Value;

use crate::text::{
    chars_of, clipped, digit_char, join, push_char, push_clean_clipped, push_clipped, push_str, sanitized,
};


verus! {

/// How a JSON number compares: as an unsigned integer, a negative integer, or a
/// finite double given by its IEEE-754 bits.
#[derive(Clone, Copy)]
pub enum NumKey {
    PosInt(u64),
    NegInt(i64),
    Float(u64),
}

/// A JSON number: the text it prints as and the key it compares by.
pub struct Number {
    pub text: String,
    pub key: NumKey,
}

/// A parsed JSON value. Object members keep their order.
pub enum Json {
    Null,
    Bool(bool),
    Number(Number),
    Str(String),
    Array(Vec<Json>),
    Object(Vec<(String, Json)>),
}

/// A JSON value as serde_json holds it.
#[verifier::external_type_specification]
#[verifier::external_body]
pub struct ExValue(serde_json::Value);

/// What `serde_json::from_str` parses a text to, as a `Json`: `None` when the text
/// is not one JSON value.
pub uninterp spec fn json_parse(text: Seq<char>) -> Option<Json>;

/// `serde_json::from_str::<serde_json::Value>`: the JSON value a text holds, if it
/// holds one (members in serde_json's map order, numbers by their printed text and
/// the kind serde_json keeps them as). What the value is, is the name `json_parse`.
#[verifier::external_body]
pub(crate) fn parse_json(text: &str) -> (r: Option<Json>)
    ensures
        r == json_parse(text@),
{
    serde_json::from_str::<Value>(text).ok().map(|v| json_of_value(&v))
}

/// Converts serde_json's value tree to a `Json`, one node for one node: a number
/// keeps the text `Display` prints and the kind serde_json stores it as (an unsigned
/// or a negative integer, or a double's bits).
#[verifier::external_body]
fn json_of_value(v: &Value) -> Json {
    match v {
        Value::Null => Json::Null,
        Value::Bool(b) => Json::Bool(*b),
        Value::Number(n) => Json::Number(Number {
            text: n.to_string(),
            key: n.as_u64().map(NumKey::PosInt).or(n.as_i64().map(NumKey::NegInt)).unwrap_or(
                NumKey::Float(n.as_f64().unwrap_or_default().to_bits()),
            ),
        }),
        Value::String(t) => Json::Str(t.clone()),
        Value::Array(a) => Json::Array(a.iter().map(json_of_value).collect()),
        Value::Object(m) => Json::Object(m.iter().map(|(k, x)| (k.clone(), json_of_value(x))).collect()),
    }
}

/// Whether a double's bits encode zero (either sign).
pub open spec fn is_zero_bits(b: u64) -> bool {
    b == 0 || b == 0x8000_0000_0000_0000u64
}

/// Number equality: same kind and value; doubles compare as `==` does (0.0 equals -0.0).
pub open spec fn num_eq(a: NumKey, b: NumKey) -> bool {
    match (a, b) {
        (NumKey::PosInt(x), NumKey::PosInt(y)) => x == y,
        (NumKey::NegInt(x), NumKey::NegInt(y)) => x == y,
        (NumKey::Float(x), NumKey::Float(y)) => x == y || (is_zero_bits(x) && is_zero_bits(y)),
        _ => false,
    }
}

/// Structural equality of JSON values (member order included, as for sorted maps).
pub open spec fn json_eq(a: Json, b: Json) -> bool
    decreases a,
{
    match a {
        Json::Null => b is Null,
        Json::Bool(x) => b is Bool && b->Bool_0 == x,
        Json::Number(x) => b is Number && num_eq(x.key, b->Number_0.key),
        Json::Str(x) => b is Str && b->Str_0@ == x@,
        Json::Array(x) => b is Array && items_eq(x@, b->Array_0@),
        Json::Object(x) => b is Object && entries_eq(x@, b->Object_0@),
    }
}

pub open spec fn items_eq(a: Seq<Json>, b: Seq<Json>) -> bool
    decreases a,
{
    if a.len() != b.len() {
        false
    } else if a.len() == 0 {
        true
    } else {
        items_eq(a.subrange(0, a.len() - 1), b.subrange(0, b.len() - 1))
            && json_eq(a[a.len() - 1], b[b.len() - 1])
    }
}

pub open spec fn entries_eq(a: Seq<(String, Json)>, b: Seq<(String, Json)>) -> bool
    decreases a,
{
    if a.len() != b.len() {
        false
    } else if a.len() == 0 {
        true
    } else {
        entries_eq(a.subrange(0, a.len() - 1), b.subrange(0, b.len() - 1))
            && a[a.len() - 1].0@ == b[b.len() - 1].0@
            && json_eq(a[a.len() - 1].1, b[b.len() - 1].1)
    }
}

/// Equal JSON values are of one kind, and scalars are equal exactly when they hold
/// the same value: booleans when they are the same boolean, strings when they hold
/// the same text, null only with null; containers of different lengths differ.
pub proof fn lemma_json_eq_by_value(a: Json, b: Json)
    ensures
        (a is Bool && b is Bool) ==> (json_eq(a, b) <==> a->Bool_0 == b->Bool_0),
        (a is Str && b is Str) ==> (json_eq(a, b) <==> a->Str_0@ == b->Str_0@),
        a is Null ==> (json_eq(a, b) <==> b is Null),
        json_eq(a, b) ==> (a is Null <==> b is Null) && (a is Bool <==> b is Bool) && (a is Number <==> b is Number)
            && (a is Str <==> b is Str) && (a is Array <==> b is Array) && (a is Object <==> b is Object),
        (a is Array && b is Array && json_eq(a, b)) ==> a->Array_0@.len() == b->Array_0@.len(),
        (a is Object && b is Object && json_eq(a, b)) ==> a->Object_0@.len() == b->Object_0@.len(),
{
}

proof fn lemma_num_eq_equivalence(a: NumKey, b: NumKey, c: NumKey)
    ensures
        num_eq(a, a),
        num_eq(a, b) ==> num_eq(b, a),
        num_eq(a, b) && num_eq(b, c) ==> num_eq(a, c),
{
}

/// Every JSON value equals itself, and equality is symmetric.
pub proof fn lemma_json_eq_reflexive_symmetric(a: Json, b: Json)
    ensures
        json_eq(a, a),
        json_eq(a, b) ==> json_eq(b, a),
    decreases a, 2int,
{
    match a {
        Json::Number(x) => {
            if b is Number {
                lemma_num_eq_equivalence(x.key, b->Number_0.key, x.key);
            } else {
                lemma_num_eq_equivalence(x.key, x.key, x.key);
            }
        },
        Json::Array(x) => {
            lemma_items_eq_refl_sym(x@, if b is Array { b->Array_0@ } else { x@ });
        },
        Json::Object(x) => {
            lemma_entries_eq_refl_sym(x@, if b is Object { b->Object_0@ } else { x@ });
        },
        _ => {},
    }
}

proof fn lemma_items_eq_refl_sym(a: Seq<Json>, b: Seq<Json>)
    ensures
        items_eq(a, a),
        items_eq(a, b) ==> items_eq(b, a),
    decreases a, 1int,
{
    if a.len() > 0 {
        let k = a.len() - 1;
        lemma_json_eq_reflexive_symmetric(a[k], if b.len() == a.len() { b[k] } else { a[k] });
        lemma_items_eq_refl_sym(a.subrange(0, k), if b.len() == a.len() { b.subrange(0, k) } else { a.subrange(0, k) });
    }
}

proof fn lemma_entries_eq_refl_sym(a: Seq<(String, Json)>, b: Seq<(String, Json)>)
    ensures
        entries_eq(a, a),
        entries_eq(a, b) ==> entries_eq(b, a),
    decreases a, 1int,
{
    if a.len() > 0 {
        let k = a.len() - 1;
        lemma_json_eq_reflexive_symmetric(a[k].1, if b.len() == a.len() { b[k].1 } else { a[k].1 });
        lemma_entries_eq_refl_sym(a.subrange(0, k), if b.len() == a.len() { b.subrange(0, k) } else { a.subrange(0, k) });
    }
}

fn num_equal(a: &NumKey, b: &NumKey) -> (r: bool)
    ensures
        r == num_eq(*a, *b),
{
    match (a, b) {
        (NumKey::PosInt(x), NumKey::PosInt(y)) => *x == *y,
        (NumKey::NegInt(x), NumKey::NegInt(y)) => *x == *y,
        (NumKey::Float(x), NumKey::Float(y)) => *x == *y || ((*x == 0 || *x
            == 0x8000_0000_0000_0000u64) && (*y == 0 || *y == 0x8000_0000_0000_0000u64)),
        _ => false,
    }
}

/// Whether two JSON values are equal (`==` on parsed values).
pub fn json_equal(a: &Json, b: &Json) -> (r: bool)
    ensures
        r == json_eq(*a, *b),
    decreases a,
{
    match a {
        Json::Null => match b {
            Json::Null => true,
            _ => false,
        },
        Json::Bool(x) => match b {
            Json::Bool(y) => *x == *y,
            _ => false,
        },
        Json::Number(x) => match b {
            Json::Number(y) => num_equal(&x.key, &y.key),
            _ => false,
        },
        Json::Str(x) => match b {
            Json::Str(y) => *x == *y,
            _ => false,
        },
        Json::Array(x) => match b {
            Json::Array(y) => {
                if x.len() != y.len() {
                    return false;
                }
                let mut i: usize = 0;
                while i < x.len()
                    invariant
                        i <= x@.len(),
                        x@.len() == y@.len(),
                        *a == Json::Array(*x),
                        *b == Json::Array(*y),
                        items_eq(x@.take(i as int), y@.take(i as int)),
                    decreases x@.len() - i,
                {
                    proof {
                        assert(decreases_to!(*a => (*a)->Array_0));
                        assert(decreases_to!((*a)->Array_0 => x@));
                        assert(decreases_to!(x@ => x@[i as int]));
                    }
                    assert(x@.take(i + 1).subrange(0, i as int) == x@.take(i as int));
                    assert(y@.take(i + 1).subrange(0, i as int) == y@.take(i as int));
                    if !json_equal(&x[i], &y[i]) {
                        proof { lemma_items_eq_prefix(x@, y@, i + 1); }
                        return false;
                    }
                    i += 1;
                }
                assert(x@.take(x@.len() as int) == x@);
                assert(y@.take(y@.len() as int) == y@);
                true
            },
            _ => false,
        },
        Json::Object(x) => match b {
            Json::Object(y) => {
                if x.len() != y.len() {
                    return false;
                }
                let mut i: usize = 0;
                while i < x.len()
                    invariant
                        i <= x@.len(),
                        x@.len() == y@.len(),
                        *a == Json::Object(*x),
                        *b == Json::Object(*y),
                        entries_eq(x@.take(i as int), y@.take(i as int)),
                    decreases x@.len() - i,
                {
                    proof {
                        assert(decreases_to!(*a => (*a)->Object_0));
                        assert(decreases_to!((*a)->Object_0 => x@));
                        assert(decreases_to!(x@ => x@[i as int]));
                        assert(decreases_to!(x@[i as int] => x@[i as int].1));
                    }
                    assert(x@.take(i + 1).subrange(0, i as int) == x@.take(i as int));
                    assert(y@.take(i + 1).subrange(0, i as int) == y@.take(i as int));
                    let same_key = x[i].0 == y[i].0;
                    if !same_key || !json_equal(&x[i].1, &y[i].1) {
                        proof { lemma_entries_eq_prefix(x@, y@, i + 1); }
                        return false;
                    }
                    i += 1;
                }
                assert(x@.take(x@.len() as int) == x@);
                assert(y@.take(y@.len() as int) == y@);
                true
            },
            _ => false,
        },
    }
}

proof fn lemma_items_eq_prefix(a: Seq<Json>, b: Seq<Json>, n: int)
    requires
        0 <= n <= a.len(),
        a.len() == b.len(),
        !items_eq(a.take(n), b.take(n)),
    ensures
        !items_eq(a, b),
    decreases a.len() - n,
{
    if n < a.len() {
        assert(a.take(n + 1).subrange(0, n) == a.take(n));
        assert(b.take(n + 1).subrange(0, n) == b.take(n));
        lemma_items_eq_prefix(a, b, n + 1);
    } else {
        assert(a.take(n) == a);
        assert(b.take(n) == b);
    }
}

proof fn lemma_entries_eq_prefix(a: Seq<(String, Json)>, b: Seq<(String, Json)>, n: int)
    requires
        0 <= n <= a.len(),
        a.len() == b.len(),
        !entries_eq(a.take(n), b.take(n)),
    ensures
        !entries_eq(a, b),
    decreases a.len() - n,
{
    if n < a.len() {
        assert(a.take(n + 1).subrange(0, n) == a.take(n));
        assert(b.take(n + 1).subrange(0, n) == b.take(n));
        lemma_entries_eq_prefix(a, b, n + 1);
    } else {
        assert(a.take(n) == a);
        assert(b.take(n) == b);
    }
}


/// A lowercase hexadecimal digit.
pub open spec fn hex_char(d: nat) -> char {
    if d < 10 {
        digit_char(d)
    } else {
        (('a' as nat) + (d - 10)) as char
    }
}

/// How one character appears inside a JSON string literal.
pub open spec fn escape_char(c: char) -> Seq<char> {
    if c == '"' {
        seq!['\\', '"']
    } else if c == '\\' {
        seq!['\\', '\\']
    } else if c == '\u{8}' {
        seq!['\\', 'b']
    } else if c == '\t' {
        seq!['\\', 't']
    } else if c == '\n' {
        seq!['\\', 'n']
    } else if c == '\u{c}' {
        seq!['\\', 'f']
    } else if c == '\r' {
        seq!['\\', 'r']
    } else if (c as nat) < 0x20 {
        seq!['\\', 'u', '0', '0', hex_char((c as nat) / 16), hex_char((c as nat) % 16)]
    } else {
        seq![c]
    }
}

/// The characters of a string, each escaped as in a JSON string literal.
pub open spec fn escaped(s: Seq<char>) -> Seq<char>
    decreases s.len(),
{
    if s.len() == 0 {
        Seq::empty()
    } else {
        escaped(s.drop_last()) + escape_char(s.last())
    }
}

/// A string as a JSON string literal, quotes included.
pub open spec fn json_quoted(s: Seq<char>) -> Seq<char> {
    seq!['"'] + escaped(s) + seq!['"']
}

/// `serde_json::to_string` of a string slice: the quoted, escaped literal.
#[verifier::external_body]
pub(crate) fn quote(s: &str) -> (q: String)
    ensures
        q@ == json_quoted(s@),
{
    serde_json::to_string(s).unwrap_or_else(|_| format!("{s:?}"))
}

pub open spec fn true_text() -> Seq<char> {
    seq!['t', 'r', 'u', 'e']
}

pub open spec fn false_text() -> Seq<char> {
    seq!['f', 'a', 'l', 's', 'e']
}

pub open spec fn null_text() -> Seq<char> {
    seq!['n', 'u', 'l', 'l']
}

pub open spec fn bool_text(b: bool) -> Seq<char> {
    if b {
        true_text()
    } else {
        false_text()
    }
}

/// Compact JSON text of a value (no whitespace), as `serde_json::to_string` writes it.
pub open spec fn compact(v: Json) -> Seq<char>
    decreases v,
{
    match v {
        Json::Null => null_text(),
        Json::Bool(b) => bool_text(b),
        Json::Number(n) => n.text@,
        Json::Str(s) => json_quoted(s@),
        Json::Array(items) => seq!['['] + compact_items(items@) + seq![']'],
        Json::Object(entries) => seq!['{'] + compact_entries(entries@) + seq!['}'],
    }
}

/// Comma-separated compact elements.
pub open spec fn compact_items(s: Seq<Json>) -> Seq<char>
    decreases s,
{
    if s.len() == 0 {
        Seq::empty()
    } else if s.len() == 1 {
        compact(s[0])
    } else {
        compact_items(s.subrange(0, s.len() - 1)) + seq![','] + compact(s[s.len() - 1])
    }
}

/// Comma-separated compact `"key":value` members.
pub open spec fn compact_entries(s: Seq<(String, Json)>) -> Seq<char>
    decreases s,
{
    if s.len() == 0 {
        Seq::empty()
    } else if s.len() == 1 {
        json_quoted(s[0].0@) + seq![':'] + compact(s[0].1)
    } else {
        compact_entries(s.subrange(0, s.len() - 1)) + seq![','] + json_quoted(
            s[s.len() - 1].0@,
        ) + seq![':'] + compact(s[s.len() - 1].1)
    }
}

pub(crate) fn push_bool(out: &mut String, b: bool)
    ensures
        final(out)@ == old(out)@ + bool_text(b),
{
    if b {
        push_str(out, "true");
        proof { reveal_strlit("true"); }
    } else {
        push_str(out, "false");
        proof { reveal_strlit("false"); }
    }
}

/// Appends the compact JSON text of `v`.
pub fn push_compact(out: &mut String, v: &Json)
    ensures
        final(out)@ == old(out)@ + compact(*v),
    decreases v,
{
    match v {
        Json::Null => {
            push_str(out, "null");
            proof { reveal_strlit("null"); }
        },
        Json::Bool(b) => push_bool(out, *b),
        Json::Number(n) => push_str(out, n.text.as_str()),
        Json::Str(s) => {
            let q = quote(s.as_str());
            push_str(out, q.as_str());
        },
        Json::Array(items) => {
            let ghost start = out@;
            push_char(out, '[');
            let mut i: usize = 0;
            while i < items.len()
                invariant
                    i <= items@.len(),
                    *v == Json::Array(*items),
                    out@ == start + seq!['['] + compact_items(items@.take(i as int)),
                decreases items@.len() - i,
            {
                proof {
                    assert(decreases_to!(*v => (*v)->Array_0));
                    assert(decreases_to!((*v)->Array_0 => items@));
                    assert(decreases_to!(items@ => items@[i as int]));
                }
                let ghost before = out@;
                if i > 0 {
                    push_char(out, ',');
                }
                push_compact(out, &items[i]);
                proof {
                    let t = items@.take(i + 1);
                    assert(t.subrange(0, i as int) == items@.take(i as int));
                    assert(t[i as int] == items@[i as int]);
                    if i == 0 {
                        assert(items@.take(0) =~= Seq::<Json>::empty());
                    }
                }
                i += 1;
            }
            push_char(out, ']');
            assert(items@.take(items@.len() as int) == items@);
        },
        Json::Object(entries) => {
            let ghost start = out@;
            push_char(out, '{');
            let mut i: usize = 0;
            while i < entries.len()
                invariant
                    i <= entries@.len(),
                    *v == Json::Object(*entries),
                    out@ == start + seq!['{'] + compact_entries(entries@.take(i as int)),
                decreases entries@.len() - i,
            {
                proof {
                    assert(decreases_to!(*v => (*v)->Object_0));
                    assert(decreases_to!((*v)->Object_0 => entries@));
                    assert(decreases_to!(entries@ => entries@[i as int]));
                    assert(decreases_to!(entries@[i as int] => entries@[i as int].1));
                }
                if i > 0 {
                    push_char(out, ',');
                }
                let q = quote(entries[i].0.as_str());
                push_str(out, q.as_str());
                push_char(out, ':');
                push_compact(out, &entries[i].1);
                proof {
                    let t = entries@.take(i + 1);
                    assert(t.subrange(0, i as int) == entries@.take(i as int));
                    assert(t[i as int] == entries@[i as int]);
                    if i == 0 {
                        assert(entries@.take(0) =~= Seq::<(String, Json)>::empty());
                    }
                }
                i += 1;
            }
            push_char(out, '}');
            assert(entries@.take(entries@.len() as int) == entries@);
        },
    }
}


/// The dot-separated parts of a path (`str::split('.')`): `"a.b"` has parts `a`, `b`;
/// the empty path has one empty part.
pub open spec fn split_dots(s: Seq<char>) -> Seq<Seq<char>>
    decreases s.len(),
{
    if s.len() == 0 {
        seq![Seq::empty()]
    } else {
        let p = split_dots(s.drop_last());
        if s.last() == '.' {
            p.push(Seq::empty())
        } else {
            p.update(p.len() - 1, p.last().push(s.last()))
        }
    }
}

pub proof fn lemma_split_dots_nonempty(s: Seq<char>)
    ensures
        split_dots(s).len() >= 1,
    decreases s.len(),
{
    if s.len() > 0 {
        lemma_split_dots_nonempty(s.drop_last());
    }
}

proof fn lemma_split_dots_join(p: Seq<char>, q: Seq<char>)
    ensures
        split_dots(p + seq!['.'] + q) == split_dots(p) + split_dots(q),
    decreases q.len(),
{
    let s = p + seq!['.'] + q;
    if q.len() == 0 {
        assert(s.drop_last() =~= p);
        assert(split_dots(p).push(Seq::empty()) =~= split_dots(p) + split_dots(q));
    } else {
        let q1 = q.drop_last();
        assert(s.drop_last() =~= p + seq!['.'] + q1);
        lemma_split_dots_join(p, q1);
        lemma_split_dots_nonempty(q1);
        let a = split_dots(p);
        let b = split_dots(q1);
        if q.last() == '.' {
            assert((a + b).push(Seq::empty()) =~= a + b.push(Seq::empty()));
        } else {
            assert((a + b).update((a + b).len() - 1, (a + b).last().push(q.last())) =~= a + b.update(
                b.len() - 1,
                b.last().push(q.last()),
            ));
        }
    }
}

proof fn lemma_split_dots_single(k: Seq<char>)
    requires
        !k.contains('.'),
    ensures
        split_dots(k) == seq![k],
    decreases k.len(),
{
    if k.len() > 0 {
        let k1 = k.drop_last();
        assert(!k1.contains('.')) by {
            if k1.contains('.') {
                let i = choose|i: int| 0 <= i < k1.len() && k1[i] == '.';
                assert(k[i] == '.');
            }
        }
        lemma_split_dots_single(k1);
        assert(k[k.len() - 1] != '.');
        assert(k1.push(k.last()) =~= k);
        assert(seq![k1].update(0, k1.push(k.last())) =~= seq![k]);
    } else {
        assert(k =~= Seq::<char>::empty());
    }
}

proof fn lemma_resolve_parts_concat(v: Json, a: Seq<Seq<char>>, b: Seq<Seq<char>>)
    ensures
        resolve_parts(v, a + b) == (match resolve_parts(v, a) {
            Some(w) => resolve_parts(w, b),
            None => None,
        }),
    decreases a.len(),
{
    if a.len() == 0 {
        assert(a + b =~= b);
    } else {
        assert((a + b)[0] == a[0]);
        assert((a + b).drop_first() =~= a.drop_first() + b);
        match step(v, a[0]) {
            Some(w) => lemma_resolve_parts_concat(w, a.drop_first(), b),
            None => {},
        }
    }
}

/// Paths compose: the value at `p.q` is the value at `q` inside the value at `p`;
/// and a single segment `k` (no dot) takes one step, an object member by name or an
/// array element by numeric index.
pub proof fn lemma_resolve_composes(v: Json, p: Seq<char>, q: Seq<char>, k: Seq<char>)
    requires
        !k.contains('.'),
    ensures
        resolve(v, p + seq!['.'] + q) == (match resolve(v, p) {
            Some(w) => resolve(w, q),
            None => None,
        }),
        resolve(v, k) == step(v, k),
{
    lemma_split_dots_join(p, q);
    lemma_resolve_parts_concat(v, split_dots(p), split_dots(q));
    lemma_split_dots_single(k);
    let one = seq![k];
    assert(one[0] == k);
    assert(one.drop_first() =~= Seq::<Seq<char>>::empty());
    match step(v, k) {
        Some(w) => {
            assert(resolve_parts(w, one.drop_first()) == Some(w));
        },
        None => {},
    }
    assert(resolve_parts(v, one) == step(v, k));
}

pub open spec fn is_digit(c: char) -> bool {
    '0' <= c && c <= '9'
}

/// The value of a string of decimal digits.
pub open spec fn digits_value(s: Seq<char>) -> nat
    decreases s.len(),
{
    if s.len() == 0 {
        0
    } else {
        digits_value(s.drop_last()) * 10 + ((s.last() as nat) - ('0' as nat)) as nat
    }
}

pub open spec fn unsigned_digits(s: Seq<char>) -> Seq<char> {
    if s.len() > 0 && s[0] == '+' {
        s.drop_first()
    } else {
        s
    }
}

/// `usize::from_str`: an optional `+`, then at least one ASCII digit, within range.
pub open spec fn index_value(s: Seq<char>) -> Option<nat> {
    let d = unsigned_digits(s);
    if d.len() > 0 && (forall|i: int| 0 <= i < d.len() ==> is_digit(#[trigger] d[i]))
        && digits_value(d) <= usize::MAX {
        Some(digits_value(d))
    } else {
        None
    }
}

/// The value of the first member named `k` (a map lookup on keys that are unique).
pub open spec fn member(entries: Seq<(String, Json)>, k: Seq<char>) -> Option<Json>
    decreases entries.len(),
{
    if entries.len() == 0 {
        None
    } else if entries[0].0@ == k {
        Some(entries[0].1)
    } else {
        member(entries.drop_first(), k)
    }
}

/// One step down a path: an object member by name, an array element by index.
pub open spec fn step(v: Json, part: Seq<char>) -> Option<Json> {
    match v {
        Json::Object(entries) => member(entries@, part),
        Json::Array(items) => match index_value(part) {
            Some(i) => if i < items@.len() {
                Some(items@[i as int])
            } else {
                None
            },
            None => None,
        },
        _ => None,
    }
}

/// Follows the parts in order; `None` as soon as one is missing.
pub open spec fn resolve_parts(v: Json, parts: Seq<Seq<char>>) -> Option<Json>
    decreases parts.len(),
{
    if parts.len() == 0 {
        Some(v)
    } else {
        match step(v, parts[0]) {
            Some(w) => resolve_parts(w, parts.drop_first()),
            None => None,
        }
    }
}

/// The value at a dotted path such as `payload.commits.0.sha`.
pub open spec fn resolve(v: Json, path: Seq<char>) -> Option<Json> {
    resolve_parts(v, split_dots(path))
}

/// Splits a path at its dots.
pub fn split_path(path: &str) -> (parts: Vec<String>)
    ensures
        parts@.len() == split_dots(path@).len(),
        forall|i: int| 0 <= i < parts@.len() ==> #[trigger] parts@[i]@ == split_dots(path@)[i],
{
    let cs = chars_of(path);
    let mut parts: Vec<String> = Vec::new();
    let mut cur = String::new();
    let mut i: usize = 0;
    while i < cs.len()
        invariant
            i <= cs@.len(),
            cs@ == path@,
            parts@.len() + 1 == split_dots(cs@.take(i as int)).len(),
            forall|j: int|
                0 <= j < parts@.len() ==> #[trigger] parts@[j]@ == split_dots(
                    cs@.take(i as int),
                )[j],
            cur@ == split_dots(cs@.take(i as int)).last(),
        decreases cs@.len() - i,
    {
        proof {
            assert(cs@.take(i + 1).drop_last() == cs@.take(i as int));
            lemma_split_dots_nonempty(cs@.take(i as int));
        }
        if cs[i] == '.' {
            let done = cur;
            parts.push(done);
            cur = String::new();
        } else {
            push_char(&mut cur, cs[i]);
        }
        i += 1;
    }
    assert(cs@.take(cs@.len() as int) == cs@);
    let ghost before = parts@;
    parts.push(cur);
    assert forall|j: int| 0 <= j < parts@.len() implies #[trigger] parts@[j]@ == split_dots(
        path@,
    )[j] by {
        if j < before.len() {
            assert(parts@[j] == before[j]);
        }
    }
    parts
}

proof fn lemma_digits_grow(s: Seq<char>, c: char)
    requires
        is_digit(c),
    ensures
        digits_value(s.push(c)) >= digits_value(s),
        digits_value(s.push(c)) == digits_value(s) * 10 + ((c as nat) - ('0' as nat)),
{
    assert(s.push(c).drop_last() == s);
}

/// Parses an array index (`usize::from_str`).
pub fn parse_index(part: &str) -> (r: Option<usize>)
    ensures
        match r {
            Some(n) => index_value(part@) == Some(n as nat),
            None => index_value(part@) is None,
        },
{
    let cs = chars_of(part);
    let start: usize = if cs.len() > 0 && cs[0] == '+' { 1 } else { 0 };
    let ghost d = unsigned_digits(cs@);
    assert(d == cs@.skip(start as int));
    if start >= cs.len() {
        assert(d.len() == 0);
        return None;
    }
    let mut acc: usize = 0;
    let mut overflow = false;
    let mut i: usize = start;
    while i < cs.len()
        invariant
            start <= i <= cs@.len(),
            cs@ == part@,
            d == unsigned_digits(part@),
            d == cs@.skip(start as int),
            forall|j: int| 0 <= j < i - start ==> is_digit(#[trigger] d[j]),
            !overflow ==> acc == digits_value(d.take(i - start)),
            overflow ==> digits_value(d.take(i - start)) > usize::MAX,
        decreases cs@.len() - i,
    {
        let c = cs[i];
        if !('0' <= c && c <= '9') {
            assert(!is_digit(d[i - start]));
            return None;
        }
        let dv = ((c as u32) - 48) as usize;
        proof {
            assert(d.take(i - start + 1) == d.take(i - start).push(c));
            lemma_digits_grow(d.take(i - start), c);
        }
        if !overflow {
            match acc.checked_mul(10) {
                Some(m) => match m.checked_add(dv) {
                    Some(n) => {
                        acc = n;
                    },
                    None => {
                        overflow = true;
                    },
                },
                None => {
                    overflow = true;
                },
            }
        }
        i += 1;
    }
    assert(d.take(i - start) == d);
    if overflow {
        None
    } else {
        Some(acc)
    }
}

/// The value of the first member named `part`.
pub fn member_of<'a>(entries: &'a Vec<(String, Json)>, part: &String) -> (r: Option<&'a Json>)
    ensures
        match r {
            Some(x) => member(entries@, part@) == Some(*x),
            None => member(entries@, part@) is None,
        },
{
    let mut i: usize = 0;
    assert(entries@.skip(0) == entries@);
    while i < entries.len()
        invariant
            i <= entries@.len(),
            member(entries@, part@) == member(entries@.skip(i as int), part@),
        decreases entries@.len() - i,
    {
        assert(entries@.skip(i as int).drop_first() == entries@.skip(i + 1));
        if entries[i].0 == *part {
            return Some(&entries[i].1);
        }
        i += 1;
    }
    None
}

/// One step down a path.
pub fn step_into<'a>(v: &'a Json, part: &String) -> (r: Option<&'a Json>)
    ensures
        match r {
            Some(x) => step(*v, part@) == Some(*x),
            None => step(*v, part@) is None,
        },
{
    match v {
        Json::Object(entries) => member_of(entries, part),
        Json::Array(items) => match parse_index(part.as_str()) {
            Some(i) => if i < items.len() {
                Some(&items[i])
            } else {
                None
            },
            None => None,
        },
        _ => None,
    }
}

/// Text of a value in a rendered line: strings unquoted with control characters as
/// spaces, numbers and booleans as written, null as `-`, containers as compact JSON
/// clipped to `budget` characters.
pub open spec fn display(v: Json, budget: nat) -> Seq<char> {
    match v {
        Json::Str(s) => sanitized(s@),
        Json::Number(n) => n.text@,
        Json::Bool(b) => bool_text(b),
        Json::Null => seq!['-'],
        _ => clipped(compact(v), budget),
    }
}

/// Appends the display text of `v`.
pub fn push_display(out: &mut String, v: &Json, budget: usize)
    ensures
        final(out)@ == old(out)@ + display(*v, budget as nat),
{
    match v {
        Json::Str(s) => {
            let cs = chars_of(s.as_str());
            push_clean_clipped(out, cs.as_slice(), cs.len());
        },
        Json::Number(n) => push_str(out, n.text.as_str()),
        Json::Bool(b) => push_bool(out, *b),
        Json::Null => push_char(out, '-'),
        _ => {
            let mut text = String::new();
            push_compact(&mut text, v);
            let cs = chars_of(text.as_str());
            push_clipped(out, cs.as_slice(), budget);
        },
    }
}

/// The compact text of an object member: the quoted key, a colon and the value.
pub open spec fn member_text(m: (String, Json)) -> Seq<char> {
    json_quoted(m.0@) + seq![':'] + compact(m.1)
}

proof fn lemma_compact_entries_join(e: Seq<(String, Json)>)
    ensures
        compact_entries(e) == join(e.map_values(|m: (String, Json)| member_text(m)), seq![',']),
    decreases e.len(),
{
    let ts = e.map_values(|m: (String, Json)| member_text(m));
    if e.len() >= 2 {
        let init = e.subrange(0, e.len() - 1);
        lemma_compact_entries_join(init);
        assert(init.map_values(|m: (String, Json)| member_text(m)) =~= ts.drop_last());
        assert(compact_entries(e) =~= compact_entries(init) + seq![','] + member_text(e[e.len() - 1]));
    } else if e.len() == 1 {
        assert(compact_entries(e) =~= member_text(e[0]));
    }
}

proof fn lemma_compact_items_join(x: Seq<Json>)
    ensures
        compact_items(x) == join(x.map_values(|v: Json| compact(v)), seq![',']),
    decreases x.len(),
{
    let ts = x.map_values(|v: Json| compact(v));
    if x.len() >= 2 {
        let init = x.subrange(0, x.len() - 1);
        lemma_compact_items_join(init);
        assert(init.map_values(|v: Json| compact(v)) =~= ts.drop_last());
    }
}

/// The compact text of a container is its members (quoted key, colon, value) or
/// elements, each in compact text, separated by commas, between braces or brackets.
pub proof fn lemma_compact_containers(v: Json)
    ensures
        v matches Json::Object(e) ==> compact(v) == seq!['{'] + join(
            e@.map_values(|m: (String, Json)| member_text(m)),
            seq![','],
        ) + seq!['}'],
        v matches Json::Array(x) ==> compact(v) == seq!['['] + join(x@.map_values(|w: Json| compact(w)), seq![','])
            + seq![']'],
{
    match v {
        Json::Object(e) => lemma_compact_entries_join(e@),
        Json::Array(x) => lemma_compact_items_join(x@),
        _ => {},
    }
}

} // verus!
