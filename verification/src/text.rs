use vstd::prelude::*;

verus! {

/// Appends one character to a string (`String::push`).
#[verifier::external_body]
pub(crate) fn push_char(s: &mut String, c: char)
    ensures
        final(s)@ == old(s)@.push(c),
{
    s.push(c);
}

/// Appends a string slice to a string.
pub fn push_str(s: &mut String, t: &str)
    ensures
        final(s)@ == old(s)@ + t@,
{
    s.append(t);
}

/// The characters of a string slice, in order.
pub fn chars_of(s: &str) -> (out: Vec<char>)
    ensures
        out@ == s@,
{
    let mut out: Vec<char> = Vec::new();
    for c in it: s.chars()
        invariant
            out@ == it.seq().take(it.index() as int),
    {
        out.push(c);
    }
    out
}

/// Appends every character of `cs` to `s`.
pub fn push_chars(s: &mut String, cs: &[char])
    ensures
        final(s)@ == old(s)@ + cs@,
{
    push_prefix(s, cs, cs.len());
    assert(cs@.take(cs@.len() as int) == cs@);
}

/// Appends the first `n` characters of `cs` to `s`.
pub fn push_prefix(s: &mut String, cs: &[char], n: usize)
    requires
        n <= cs@.len(),
    ensures
        final(s)@ == old(s)@ + cs@.take(n as int),
{
    let mut i: usize = 0;
    while i < n
        invariant
            n <= cs@.len(),
            i <= n,
            s@ == old(s)@ + cs@.take(i as int),
        decreases n - i,
    {
        push_char(s, cs[i]);
        i += 1;
        assert(cs@.take(i as int) == cs@.take(i - 1).push(cs@[i - 1]));
    }
}

/// The character for a decimal digit.
pub open spec fn digit_char(d: nat) -> char {
    (('0' as nat) + d) as char
}

/// Decimal digits of a natural number, most significant first (as `Display` prints it).
pub open spec fn decimal(n: nat) -> Seq<char>
    decreases n,
{
    if n < 10 {
        seq![digit_char(n)]
    } else {
        decimal(n / 10).push(digit_char(n % 10))
    }
}

fn digit(d: u64) -> (c: char)
    requires
        d < 10,
    ensures
        c == digit_char(d as nat),
{
    ((48u8 + d as u8) as char)
}

/// Appends the decimal form of `n`.
pub fn push_decimal(out: &mut String, n: u64)
    ensures
        final(out)@ == old(out)@ + decimal(n as nat),
    decreases n,
{
    if n >= 10 {
        push_decimal(out, n / 10);
    }
    push_char(out, digit(n % 10));
}


/// Control characters (general category Cc): U+0000..U+001F and U+007F..U+009F.
pub open spec fn is_control(c: char) -> bool {
    c <= '\u{1f}' || ('\u{7f}' <= c && c <= '\u{9f}')
}

/// Whether `c` is a control character (`char::is_control`).
pub fn control(c: char) -> (b: bool)
    ensures
        b == is_control(c),
{
    c <= '\u{1f}' || ('\u{7f}' <= c && c <= '\u{9f}')
}

/// Every control character replaced by a space.
pub open spec fn sanitized(s: Seq<char>) -> Seq<char> {
    s.map_values(|c: char| if is_control(c) { ' ' } else { c })
}

/// At most `max` characters; a longer text keeps its first `max` and gains `…`.
pub open spec fn clipped(s: Seq<char>, max: nat) -> Seq<char> {
    if s.len() > max {
        s.take(max as int).push('…')
    } else {
        s
    }
}

/// `n` spaces.
pub open spec fn spaces(n: nat) -> Seq<char> {
    Seq::new(n, |i: int| ' ')
}

/// Right-aligned in a field of `width` characters (`{:>width}`).
pub open spec fn pad_left(s: Seq<char>, width: nat) -> Seq<char> {
    if s.len() >= width {
        s
    } else {
        spaces((width - s.len()) as nat) + s
    }
}

/// Left-aligned in a field of `width` characters (`{:<width}`).
pub open spec fn pad_right(s: Seq<char>, width: nat) -> Seq<char> {
    if s.len() >= width {
        s
    } else {
        s + spaces((width - s.len()) as nat)
    }
}

/// Appends `n` spaces.
pub fn push_spaces(out: &mut String, n: usize)
    ensures
        final(out)@ == old(out)@ + spaces(n as nat),
{
    let mut i: usize = 0;
    while i < n
        invariant
            i <= n,
            out@ == old(out)@ + spaces(i as nat),
        decreases n - i,
    {
        push_char(out, ' ');
        i += 1;
        assert(spaces(i as nat) == spaces((i - 1) as nat).push(' '));
    }
}

/// Appends `s` right-aligned in `width` characters.
pub fn push_pad_left(out: &mut String, s: &[char], width: usize)
    ensures
        final(out)@ == old(out)@ + pad_left(s@, width as nat),
{
    if s.len() < width {
        push_spaces(out, width - s.len());
    }
    push_chars(out, s);
}

/// Appends `s` left-aligned in `width` characters.
pub fn push_pad_right(out: &mut String, s: &[char], width: usize)
    ensures
        final(out)@ == old(out)@ + pad_right(s@, width as nat),
{
    push_chars(out, s);
    if s.len() < width {
        push_spaces(out, width - s.len());
    }
}

/// Appends `s` with control characters replaced by spaces and clipped to `max` characters.
pub fn push_clean_clipped(out: &mut String, s: &[char], max: usize)
    ensures
        final(out)@ == old(out)@ + clipped(sanitized(s@), max as nat),
{
    let ghost clean = sanitized(s@);
    let n = if s.len() > max { max } else { s.len() };
    let mut i: usize = 0;
    while i < n
        invariant
            n <= s@.len(),
            i <= n,
            clean == sanitized(s@),
            out@ == old(out)@ + clean.take(i as int),
        decreases n - i,
    {
        let c = s[i];
        let d = if control(c) { ' ' } else { c };
        push_char(out, d);
        i += 1;
        assert(clean.take(i as int) == clean.take(i - 1).push(clean[i - 1]));
    }
    if s.len() > max {
        push_char(out, '…');
    } else {
        assert(clean.take(n as int) == clean);
    }
}

/// Appends `s` clipped to `max` characters.
pub fn push_clipped(out: &mut String, s: &[char], max: usize)
    ensures
        final(out)@ == old(out)@ + clipped(s@, max as nat),
{
    if s.len() > max {
        push_prefix(out, s, max);
        push_char(out, '…');
    } else {
        push_chars(out, s);
    }
}

/// The parts with `sep` between consecutive ones.
pub open spec fn join(parts: Seq<Seq<char>>, sep: Seq<char>) -> Seq<char>
    decreases parts.len(),
{
    if parts.len() == 0 {
        Seq::empty()
    } else if parts.len() == 1 {
        parts[0]
    } else {
        join(parts.drop_last(), sep) + sep + parts.last()
    }
}

/// Appends the parts joined by `sep`.
pub fn push_joined(out: &mut String, parts: &Vec<Vec<char>>, sep: char)
    ensures
        final(out)@ == old(out)@ + join(parts@.map_values(|p: Vec<char>| p@), seq![sep]),
{
    let ghost pv = parts@.map_values(|p: Vec<char>| p@);
    let mut i: usize = 0;
    while i < parts.len()
        invariant
            i <= parts@.len(),
            pv == parts@.map_values(|p: Vec<char>| p@),
            out@ == old(out)@ + join(pv.take(i as int), seq![sep]),
        decreases parts@.len() - i,
    {
        if i > 0 {
            push_char(out, sep);
        }
        push_chars(out, parts[i].as_slice());
        assert(pv.take(i + 1).drop_last() == pv.take(i as int));
        if i == 0 {
            assert(pv.take(0) =~= Seq::<Seq<char>>::empty());
        }
        i += 1;
    }
    assert(pv.take(parts@.len() as int) == pv);
}

/// The parts one after another.
pub open spec fn concat(parts: Seq<Seq<char>>) -> Seq<char>
    decreases parts.len(),
{
    if parts.len() == 0 {
        Seq::empty()
    } else {
        concat(parts.drop_last()) + parts.last()
    }
}

/// The decimal form of `n` followed by one decimal digit of the remainder:
/// `n` tenths written as `q.r`.
pub open spec fn tenths_text(n: nat) -> Seq<char> {
    decimal(n / 10) + seq!['.', digit_char(n % 10)]
}

/// `n / d` rounded to the nearest integer, ties to even.
pub open spec fn round_half_even(n: nat, d: nat) -> nat
    recommends
        d > 0,
{
    let q = n / d;
    let r = n % d;
    if 2 * r > d {
        q + 1
    } else if 2 * r < d {
        q
    } else if q % 2 == 0 {
        q
    } else {
        q + 1
    }
}

/// Appends the decimal form of a wide `n`.
pub fn push_decimal_wide(out: &mut String, n: u128)
    ensures
        final(out)@ == old(out)@ + decimal(n as nat),
    decreases n,
{
    if n >= 10 {
        push_decimal_wide(out, n / 10);
    }
    push_char(out, digit((n % 10) as u64));
}

/// Appends `n` tenths as `q.r`.
pub fn push_tenths(out: &mut String, n: u128)
    ensures
        final(out)@ == old(out)@ + tenths_text(n as nat),
{
    push_decimal_wide(out, n / 10);
    push_char(out, '.');
    push_char(out, digit((n % 10) as u64));
}

/// A copy of a character vector.
pub fn copy_chars(v: &Vec<char>) -> (r: Vec<char>)
    ensures
        r@ == v@,
{
    let r = v.clone();
    assert(r@ =~= v@);
    r
}

/// Decimal digits of `n` as characters.
pub fn decimal_chars(n: u64) -> (out: Vec<char>)
    ensures
        out@ == decimal(n as nat),
{
    let mut s = String::new();
    push_decimal(&mut s, n);
    chars_of(s.as_str())
}

} // verus!
