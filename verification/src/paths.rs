use vstd::prelude::*;

use crate::json::{bool_text, push_bool, Json};
use crate::presence::{presence, presence_tenths};
use crate::rank::{distinct_items, items_view, lex_strict, listing, names_view, rank, ranked, sort_names, sorted_names};
use crate::strmap::StrMap;
use crate::text::{chars_of, clipped, concat, copy_chars, decimal, join, pad_left, pad_right, push_decimal, push_pad_left, push_pad_right, push_tenths, tenths_text, push_chars, push_clean_clipped, push_joined, push_str, sanitized};

verus! {

/// Caps so a pathological stream (e.g. random keys) can't blow up memory.
/// Truncation is always reported, never silent.
pub const MAX_PATHS: usize = 2000;

/// Distinct string values tracked per path before it stops counting as a
/// possible discriminant field.
pub const MAX_DISTINCT: usize = 24;

pub const EXAMPLE_CHARS: usize = 48;

pub const EXEMPLAR_CHARS: usize = 160;

/// Which JSON types have been seen at a path.
#[derive(Clone, Copy, PartialEq, Eq, Structural)]
pub struct TypeSet {
    pub array: bool,
    pub boolean: bool,
    pub null: bool,
    pub number: bool,
    pub object: bool,
    pub string: bool,
}

/// What is known of one dotted path.
pub struct PathStat {
    count: u64,
    types: TypeSet,
    example: Option<String>,
    /// Distinct string/bool values, while cardinality stays low enough for
    /// the path to be a useful discriminant; None once it overflows.
    values: Option<StrMap<u64>>,
}

/// One top-level shape: how many lines had it, and the first of them.
pub struct Shape {
    count: u64,
    exemplar: String,
}

/// Dumb, exhaustive structure counter for `paths`: which dotted paths
/// occur, with what types, how often, plus top-level shape buckets.
/// No inference — deciding what matters is the reader's job.
pub struct Accumulator {
    json_lines: u64,
    text_lines: u64,
    paths: StrMap<PathStat>,
    dropped_paths: u64,
    shapes: StrMap<Shape>,
}

/// A path's statistics as values.
pub struct StatView {
    pub count: u64,
    pub types: TypeSet,
    pub example: Option<Seq<char>>,
    pub values: Option<Map<Seq<char>, u64>>,
}

/// A shape as values.
pub struct ShapeView {
    pub count: u64,
    pub exemplar: Seq<char>,
}

/// An accumulator as values.
pub struct AccView {
    pub json_lines: u64,
    pub text_lines: u64,
    pub paths: Map<Seq<char>, StatView>,
    pub dropped_paths: u64,
    pub shapes: Map<Seq<char>, ShapeView>,
}

/// Adds one, staying at the maximum once there.
pub open spec fn sat_inc(x: u64) -> u64 {
    if x < u64::MAX {
        (x + 1) as u64
    } else {
        x
    }
}

pub open spec fn no_types() -> TypeSet {
    TypeSet { array: false, boolean: false, null: false, number: false, object: false, string: false }
}

/// The types seen, with the type of `v` added.
pub open spec fn with_type(t: TypeSet, v: Json) -> TypeSet {
    match v {
        Json::Null => TypeSet { null: true, ..t },
        Json::Bool(_) => TypeSet { boolean: true, ..t },
        Json::Number(_) => TypeSet { number: true, ..t },
        Json::Str(_) => TypeSet { string: true, ..t },
        Json::Array(_) => TypeSet { array: true, ..t },
        Json::Object(_) => TypeSet { object: true, ..t },
    }
}

/// Counts one more occurrence of `s`, dropping the tally once it holds more than
/// `MAX_DISTINCT` values.
pub open spec fn track_value(values: Option<Map<Seq<char>, u64>>, s: Seq<char>) -> Option<Map<Seq<char>, u64>> {
    match values {
        None => None,
        Some(m) => {
            let c = if m.contains_key(s) {
                m[s]
            } else {
                0
            };
            let m2 = m.insert(s, sat_inc(c));
            if m2.dom().len() > MAX_DISTINCT {
                None
            } else {
                Some(m2)
            }
        },
    }
}

/// A path's statistics before any occurrence.
pub open spec fn fresh_stat() -> StatView {
    StatView { count: 0, types: no_types(), example: None, values: Some(Map::empty()) }
}

/// A path's statistics after one more occurrence, of value `v`.
pub open spec fn record_stat(st: StatView, v: Json) -> StatView {
    let st1 = StatView { count: sat_inc(st.count), types: with_type(st.types, v), ..st };
    match v {
        Json::Str(s) => StatView {
            example: if st1.example is None && s@.len() > 0 {
                Some(clipped(sanitized(s@), EXAMPLE_CHARS as nat))
            } else {
                st1.example
            },
            values: track_value(st1.values, s@),
            ..st1
        },
        Json::Bool(b) => StatView { values: track_value(st1.values, bool_text(b)), ..st1 },
        Json::Number(n) => StatView {
            example: if st1.example is None {
                Some(n.text@)
            } else {
                st1.example
            },
            ..st1
        },
        _ => st1,
    }
}

/// One occurrence of `path` with value `v`: counted, or only tallied as dropped when
/// the path is new and the cap is reached.
pub open spec fn record_path(a: AccView, path: Seq<char>, v: Json) -> AccView {
    if !a.paths.contains_key(path) && a.paths.dom().len() >= MAX_PATHS {
        AccView { dropped_paths: sat_inc(a.dropped_paths), ..a }
    } else {
        let st = if a.paths.contains_key(path) {
            a.paths[path]
        } else {
            fresh_stat()
        };
        AccView { paths: a.paths.insert(path, record_stat(st, v)), ..a }
    }
}

/// Records the occurrences in order.
pub open spec fn record_all(a: AccView, occ: Seq<(Seq<char>, Json)>) -> AccView
    decreases occ.len(),
{
    if occ.len() == 0 {
        a
    } else {
        record_path(record_all(a, occ.drop_last()), occ.last().0, occ.last().1)
    }
}

/// The path of a member `k` under `path`.
pub open spec fn child_path(path: Seq<char>, k: Seq<char>) -> Seq<char> {
    if path.len() == 0 {
        k
    } else {
        path + seq!['.'] + k
    }
}

/// Every (path, value) pair met walking `v` from `path`, parents before children,
/// members in order; arrays contribute element 0 only, so paths stay
/// template-addressable and counts stay per line. The empty path is not counted.
pub open spec fn occurrences(v: Json, path: Seq<char>) -> Seq<(Seq<char>, Json)>
    decreases v, 1int,
{
    let own = if path.len() == 0 {
        Seq::empty()
    } else {
        seq![(path, v)]
    };
    own + child_occurrences(v, path)
}

/// The occurrences below `v` (not `v` itself).
pub open spec fn child_occurrences(v: Json, path: Seq<char>) -> Seq<(Seq<char>, Json)>
    decreases v, 0int,
{
    match v {
        Json::Object(e) => member_occurrences(e@, path),
        Json::Array(items) => if items@.len() > 0 {
            occurrences(items@[0], child_path(path, seq!['0']))
        } else {
            Seq::empty()
        },
        _ => Seq::empty(),
    }
}

pub open spec fn member_occurrences(e: Seq<(String, Json)>, path: Seq<char>) -> Seq<(Seq<char>, Json)>
    decreases e, 2int,
{
    if e.len() == 0 {
        Seq::empty()
    } else {
        member_occurrences(e.subrange(0, e.len() - 1), path) + occurrences(
            e[e.len() - 1].1,
            child_path(path, e[e.len() - 1].0@),
        )
    }
}

/// The member names of an object.
pub open spec fn key_names(e: Seq<(String, Json)>) -> Seq<Seq<char>> {
    e.map_values(|x: (String, Json)| x.0@)
}

pub open spec fn non_object_text() -> Seq<char> {
    "(non-object line)"@
}

/// A line's top-level shape: its sorted keys joined by commas.
pub open spec fn signature(v: Json) -> Seq<char> {
    match v {
        Json::Object(e) => join(sorted_names(key_names(e@)), seq![',']),
        _ => non_object_text(),
    }
}

/// The accumulator after one more input line (`json` is its parsed form when it is
/// structured JSON).
pub open spec fn add_line(a: AccView, raw: Seq<char>, json: Option<Json>) -> AccView {
    match json {
        None => AccView { text_lines: sat_inc(a.text_lines), ..a },
        Some(v) => {
            let sig = signature(v);
            let sh = if a.shapes.contains_key(sig) {
                a.shapes[sig]
            } else {
                ShapeView { count: 0, exemplar: clipped(sanitized(raw), EXEMPLAR_CHARS as nat) }
            };
            let a1 = AccView {
                json_lines: sat_inc(a.json_lines),
                shapes: a.shapes.insert(sig, ShapeView { count: sat_inc(sh.count), ..sh }),
                ..a
            };
            record_all(a1, occurrences(v, Seq::empty()))
        },
    }
}

/// Recording occurrences in two runs gives what recording them all in one run
/// gives: the statistics of a stream do not depend on how it is split into batches.
pub proof fn lemma_record_all_concat(a: AccView, x: Seq<(Seq<char>, Json)>, y: Seq<(Seq<char>, Json)>)
    ensures
        record_all(a, x + y) == record_all(record_all(a, x), y),
    decreases y.len(),
{
    if y.len() == 0 {
        assert(x + y =~= x);
    } else {
        assert((x + y).drop_last() =~= x + y.drop_last());
        lemma_record_all_concat(a, x, y.drop_last());
    }
}

fn sat_inc_exec(x: u64) -> (r: u64)
    ensures
        r == sat_inc(x),
{
    if x < u64::MAX {
        x + 1
    } else {
        x
    }
}

fn with_type_exec(t: TypeSet, v: &Json) -> (r: TypeSet)
    ensures
        r == with_type(t, *v),
{
    let mut r = t;
    match v {
        Json::Null => r.null = true,
        Json::Bool(_) => r.boolean = true,
        Json::Number(_) => r.number = true,
        Json::Str(_) => r.string = true,
        Json::Array(_) => r.array = true,
        Json::Object(_) => r.object = true,
    }
    r
}

impl PathStat {
    pub closed spec fn view(&self) -> StatView {
        StatView {
            count: self.count,
            types: self.types,
            example: match self.example {
                Some(e) => Some(e@),
                None => None,
            },
            values: match self.values {
                Some(m) => Some(m@),
                None => None,
            },
        }
    }

    pub closed spec fn wf(&self) -> bool {
        match self.values {
            Some(m) => m.wf() && m@.dom().len() <= MAX_DISTINCT,
            None => true,
        }
    }

    fn fresh() -> (s: PathStat)
        ensures
            s.wf(),
            s@ == fresh_stat(),
    {
        PathStat {
            count: 0,
            types: TypeSet {
                array: false,
                boolean: false,
                null: false,
                number: false,
                object: false,
                string: false,
            },
            example: None,
            values: Some(StrMap::new()),
        }
    }

    fn record_value(&mut self, v: &Json)
        requires
            old(self).wf(),
        ensures
            final(self).wf(),
            final(self)@ == record_stat(old(self)@, *v),
    {
        self.count = sat_inc_exec(self.count);
        self.types = with_type_exec(self.types, v);
        match v {
            Json::Str(s) => {
                let cs = chars_of(s.as_str());
                if self.example.is_none() && cs.len() > 0 {
                    let mut e = String::new();
                    push_clean_clipped(&mut e, cs.as_slice(), EXAMPLE_CHARS);
                    self.example = Some(e);
                }
                track(&mut self.values, cs.as_slice());
            },
            Json::Bool(b) => {
                let mut t = String::new();
                push_bool(&mut t, *b);
                let cs = chars_of(t.as_str());
                track(&mut self.values, cs.as_slice());
            },
            Json::Number(n) => {
                if self.example.is_none() {
                    self.example = Some(n.text.clone());
                }
            },
            _ => {},
        }
    }
}

/// Counts one more occurrence of the value `v` in a path's tally of distinct values.
pub fn track(values: &mut Option<StrMap<u64>>, v: &[char])
    requires
        match *old(values) {
            Some(m) => m.wf(),
            None => true,
        },
    ensures
        match *final(values) {
            Some(m) => m.wf() && m@.dom().len() <= MAX_DISTINCT,
            None => true,
        },
        match *final(values) {
            Some(m) => Some(m@),
            None => None::<Map<Seq<char>, u64>>,
        } == track_value(
            match *old(values) {
                Some(m) => Some(m@),
                None => None,
            },
            v@,
        ),
{
    match values.take() {
        None => {},
        Some(mut map) => {
            match map.find(v) {
                Ok(i) => {
                    let ghost m0 = map@;
                    proof { map.lemma_entries(); }
                    let mut c: u64 = 0;
                    map.swap_at(i, &mut c);
                    let mut c2 = sat_inc_exec(c);
                    let ghost c2v = c2;
                    map.swap_at(i, &mut c2);
                    assert(map@ =~= m0.insert(v@, c2v));
                },
                Err(i) => {
                    let mut key: Vec<char> = Vec::new();
                    let mut j: usize = 0;
                    while j < v.len()
                        invariant
                            j <= v@.len(),
                            key@ == v@.take(j as int),
                        decreases v@.len() - j,
                    {
                        key.push(v[j]);
                        j += 1;
                        assert(v@.take(j as int) == v@.take(j - 1).push(v@[j - 1]));
                    }
                    assert(v@.take(v@.len() as int) == v@);
                    map.insert_at(i, key, 1);
                },
            }
            let n = map.len();
            if n > MAX_DISTINCT {
                *values = None;
            } else {
                *values = Some(map);
            }
        },
    }
}


impl Shape {
    pub closed spec fn view(&self) -> ShapeView {
        ShapeView { count: self.count, exemplar: self.exemplar@ }
    }
}

impl Accumulator {
    pub closed spec fn view(&self) -> AccView {
        AccView {
            json_lines: self.json_lines,
            text_lines: self.text_lines,
            paths: self.paths@.map_values(|s: PathStat| s@),
            dropped_paths: self.dropped_paths,
            shapes: self.shapes@.map_values(|s: Shape| s@),
        }
    }

    pub closed spec fn wf(&self) -> bool {
        &&& self.paths.wf()
        &&& self.shapes.wf()
        &&& forall|i: int| 0 <= i < self.paths.val_seq().len() ==> (#[trigger] self.paths.val_seq()[i]).wf()
        &&& self.paths@.dom().len() <= MAX_PATHS
    }

    /// An accumulator that has seen nothing.
    pub fn new() -> (a: Accumulator)
        ensures
            a.wf(),
            a@ == (AccView {
                json_lines: 0,
                text_lines: 0,
                paths: Map::empty(),
                dropped_paths: 0,
                shapes: Map::empty(),
            }),
    {
        let a = Accumulator {
            json_lines: 0,
            text_lines: 0,
            paths: StrMap::new(),
            dropped_paths: 0,
            shapes: StrMap::new(),
        };
        assert(a@.paths =~= Map::empty());
        assert(a@.shapes =~= Map::empty());
        proof { a.paths.lemma_entries(); }
        a
    }

    fn record(&mut self, path: &Vec<char>, v: &Json)
        requires
            old(self).wf(),
        ensures
            final(self).wf(),
            final(self)@ == record_path(old(self)@, path@, *v),
    {
        let ghost a0 = self@;
        assert(a0.paths.dom() =~= self.paths@.dom());
        match self.paths.find(path.as_slice()) {
            Ok(i) => {
                proof { self.paths.lemma_entries(); }
                let ghost m0 = self.paths@;
                let mut st = PathStat::fresh();
                self.paths.swap_at(i, &mut st);
                assert(st == m0[path@]);
                assert(st.wf()) by {
                    assert(old(self).paths.val_seq()[i as int].wf());
                }
                st.record_value(v);
                let ghost stv = st;
                self.paths.swap_at(i, &mut st);
                assert(self.paths@ =~= m0.insert(path@, stv));
                assert forall|j: int| 0 <= j < self.paths.val_seq().len() implies (#[trigger] self.paths.val_seq()[j]).wf() by {
                    if j != i {
                        assert(self.paths.val_seq()[j] == old(self).paths.val_seq()[j]);
                    }
                }
                assert(self@.paths =~= a0.paths.insert(path@, record_stat(a0.paths[path@], *v)));
            },
            Err(i) => {
                let n = self.paths.len();
                if n >= MAX_PATHS {
                    self.dropped_paths = sat_inc_exec(self.dropped_paths);
                } else {
                    let mut st = PathStat::fresh();
                    st.record_value(v);
                    let ghost stv = st;
                    let key = copy_chars(path);
                    proof { old(self).paths.lemma_entries(); }
                    self.paths.insert_at(i, key, st);
                    assert forall|j: int| 0 <= j < self.paths.val_seq().len() implies (#[trigger] self.paths.val_seq()[j]).wf() by {
                        if j < i {
                            assert(self.paths.val_seq()[j] == old(self).paths.val_seq()[j]);
                        } else if j > i {
                            assert(self.paths.val_seq()[j] == old(self).paths.val_seq()[j - 1]);
                        }
                    }
                    proof {
                        self.paths.lemma_entries();
                        old(self).paths.lemma_entries();
                    }
                    assert(self@.paths =~= a0.paths.insert(path@, record_stat(fresh_stat(), *v)));
                }
            },
        }
    }
}


fn child_path_exec(path: &Vec<char>, k: &[char]) -> (r: Vec<char>)
    ensures
        r@ == child_path(path@, k@),
{
    let mut r = copy_chars(path);
    if path.len() > 0 {
        r.push('.');
    }
    let mut j: usize = 0;
    let ghost base = r@;
    while j < k.len()
        invariant
            j <= k@.len(),
            r@ == base + k@.take(j as int),
        decreases k@.len() - j,
    {
        r.push(k[j]);
        j += 1;
        assert(k@.take(j as int) == k@.take(j - 1).push(k@[j - 1]));
    }
    assert(k@.take(k@.len() as int) == k@);
    r
}

/// The shape signature of a line.
fn signature_exec(v: &Json) -> (r: Vec<char>)
    ensures
        r@ == signature(*v),
{
    match v {
        Json::Object(e) => {
            let mut names: Vec<Vec<char>> = Vec::new();
            let mut i: usize = 0;
            while i < e.len()
                invariant
                    i <= e@.len(),
                    names_view(names@) == key_names(e@).take(i as int),
                decreases e@.len() - i,
            {
                let ghost before = names_view(names@);
                let k = chars_of(e[i].0.as_str());
                assert(k@ == e@[i as int].0@);
                names.push(k);
                assert(names_view(names@) =~= before.push(e@[i as int].0@));
                assert(key_names(e@).take(i + 1) =~= key_names(e@).take(i as int).push(e@[i as int].0@));
                i += 1;
            }
            assert(key_names(e@).take(e@.len() as int) =~= key_names(e@));
            let sorted = sort_names(names);
            let mut s = String::new();
            push_joined(&mut s, &sorted, ',');
            assert(sorted@.map_values(|p: Vec<char>| p@) == names_view(sorted@));
            chars_of(s.as_str())
        },
        _ => {
            let r = chars_of("(non-object line)");
            r
        },
    }
}

impl Accumulator {
    fn walk(&mut self, path: &Vec<char>, v: &Json)
        requires
            old(self).wf(),
        ensures
            final(self).wf(),
            final(self)@ == record_all(old(self)@, occurrences(*v, path@)),
        decreases v,
    {
        let ghost a0 = self@;
        let ghost own: Seq<(Seq<char>, Json)> = if path@.len() == 0 {
            Seq::empty()
        } else {
            seq![(path@, *v)]
        };
        assert(record_all(a0, Seq::empty()) == a0);
        if path.len() > 0 {
            self.record(path, v);
            assert(seq![(path@, *v)].drop_last() =~= Seq::<(Seq<char>, Json)>::empty());
        } else {
            assert(own =~= Seq::<(Seq<char>, Json)>::empty());
        }
        assert(self@ == record_all(a0, own));
        let ghost a1 = self@;
        match v {
            Json::Object(e) => {
                let mut i: usize = 0;
                assert(e@.take(0) =~= Seq::<(String, Json)>::empty());
                while i < e.len()
                    invariant
                        i <= e@.len(),
                        *v == Json::Object(*e),
                        self.wf(),
                        self@ == record_all(a1, member_occurrences(e@.take(i as int), path@)),
                    decreases e@.len() - i,
                {
                    proof {
                        assert(decreases_to!(*v => (*v)->Object_0));
                        assert(decreases_to!((*v)->Object_0 => e@));
                        assert(decreases_to!(e@ => e@[i as int]));
                        assert(decreases_to!(e@[i as int] => e@[i as int].1));
                    }
                    let k = chars_of(e[i].0.as_str());
                    let child = child_path_exec(path, k.as_slice());
                    let ghost before = self@;
                    self.walk(&child, &e[i].1);
                    proof {
                        let t = e@.take(i + 1);
                        assert(t.subrange(0, i as int) == e@.take(i as int));
                        assert(t[i as int] == e@[i as int]);
                        lemma_record_all_concat(
                            a1,
                            member_occurrences(e@.take(i as int), path@),
                            occurrences(e@[i as int].1, child_path(path@, e@[i as int].0@)),
                        );
                    }
                    i += 1;
                }
                assert(e@.take(e@.len() as int) == e@);
            },
            Json::Array(items) => {
                if items.len() > 0 {
                    proof {
                        assert(decreases_to!(*v => (*v)->Array_0));
                        assert(decreases_to!((*v)->Array_0 => items@));
                        assert(decreases_to!(items@ => items@[0]));
                    }
                    let zero: Vec<char> = vec!['0'];
                    assert(zero@ == seq!['0']);
                    let child = child_path_exec(path, zero.as_slice());
                    self.walk(&child, &items[0]);
                }
            },
            _ => {},
        }
        proof {
            let rest = child_occurrences(*v, path@);
            lemma_record_all_concat(a0, own, rest);
            if rest.len() == 0 {
                assert(own + rest =~= own);
            }
        }
    }

    /// Counts one input line: `json` is its parsed form when it is a JSON object
    /// or array, `None` for a text line.
    pub fn add(&mut self, raw: &str, json: Option<&Json>)
        requires
            old(self).wf(),
        ensures
            final(self).wf(),
            final(self)@ == add_line(
                old(self)@,
                raw@,
                match json {
                    Some(v) => Some(*v),
                    None => None,
                },
            ),
    {
        match json {
            None => {
                self.text_lines = sat_inc_exec(self.text_lines);
            },
            Some(v) => {
                self.json_lines = sat_inc_exec(self.json_lines);
                let sig = signature_exec(v);
                let ghost a0 = self@;
                assert(a0.shapes.dom() =~= self.shapes@.dom());
                match self.shapes.find(sig.as_slice()) {
                    Ok(i) => {
                        proof { self.shapes.lemma_entries(); }
                        let ghost m0 = self.shapes@;
                        let mut sh = Shape { count: 0, exemplar: String::new() };
                        self.shapes.swap_at(i, &mut sh);
                        sh.count = sat_inc_exec(sh.count);
                        let ghost shv = sh;
                        self.shapes.swap_at(i, &mut sh);
                        assert(self.shapes@ =~= m0.insert(sig@, shv));
                        assert(self@.shapes =~= a0.shapes.insert(
                            sig@,
                            ShapeView { count: sat_inc(a0.shapes[sig@].count), ..a0.shapes[sig@] },
                        ));
                    },
                    Err(i) => {
                        let ex = truncate(raw, EXEMPLAR_CHARS);
                        let sh = Shape { count: 1, exemplar: ex };
                        let ghost shv = sh;
                        let key = copy_chars(&sig);
                        self.shapes.insert_at(i, key, sh);
                        assert(self@.shapes =~= a0.shapes.insert(sig@, shv@));
                    },
                }
                assert(self.paths.val_seq() == old(self).paths.val_seq());
                let path: Vec<char> = Vec::new();
                assert(path@ =~= Seq::<char>::empty());
                self.walk(&path, v);
            },
        }
    }
}


/// Names listed by count (descending), then by name.
pub open spec fn by_presence(items: Seq<(u64, Seq<char>)>) -> Seq<Seq<char>> {
    ranked(items).map_values(|i: usize| items[i as int].1)
}

/// The shapes as (count, signature).
pub open spec fn shape_items(a: AccView) -> Seq<(u64, Seq<char>)> {
    listing(a.shapes.dom()).map_values(|k: Seq<char>| (a.shapes[k].count, k))
}

/// The paths as (count, path).
pub open spec fn path_items(a: AccView) -> Seq<(u64, Seq<char>)> {
    listing(a.paths.dom()).map_values(|k: Seq<char>| (a.paths[k].count, k))
}

/// Tallied values as (count, value).
pub open spec fn value_items(m: Map<Seq<char>, u64>) -> Seq<(u64, Seq<char>)> {
    listing(m.dom()).map_values(|k: Seq<char>| (m[k], k))
}

pub open spec fn shape_line(sig: Seq<char>, sh: ShapeView) -> Seq<char> {
    "  "@ + pad_left(decimal(sh.count as nat), 8) + "x  keys: "@ + sig + "\n"@ + "             e.g. "@
        + sh.exemplar + "\n"@
}

/// One entry per shape, most frequent first.
pub open spec fn shape_block(a: AccView) -> Seq<char> {
    concat(by_presence(shape_items(a)).map_values(|k: Seq<char>| shape_line(k, a.shapes[k])))
}

/// The names of the types seen, in alphabetical order.
pub open spec fn type_names(t: TypeSet) -> Seq<Seq<char>> {
    (if t.array { seq!["array"@] } else { Seq::empty() }) + (if t.boolean { seq!["bool"@] } else { Seq::empty() })
        + (if t.null { seq!["null"@] } else { Seq::empty() }) + (if t.number { seq!["number"@] } else { Seq::empty() })
        + (if t.object { seq!["object"@] } else { Seq::empty() }) + (if t.string { seq!["string"@] } else { Seq::empty() })
}

pub open spec fn types_text(t: TypeSet) -> Seq<char> {
    join(type_names(t), "|"@)
}

/// Presence of `count` among `total` lines, in percent with one decimal, as
/// `count as f64 / total.max(1) as f64 * 100.0` prints with `{:.1}`.
pub open spec fn pct_text(count: u64, total: u64) -> Seq<char> {
    tenths_text(presence_tenths(count, total))
}

pub open spec fn value_entry(k: Seq<char>, c: u64) -> Seq<char> {
    clipped(sanitized(k), EXAMPLE_CHARS as nat) + "("@ + decimal(c as nat) + ")"@
}

/// Value column: distinct values (a discriminant candidate) or an example.
pub open spec fn describe_text(st: StatView) -> Seq<char> {
    let example_text = match st.example {
        Some(e) => "e.g. "@ + e,
        None => Seq::empty(),
    };
    match st.values {
        Some(m) => if m.dom().len() > 0 {
            decimal(m.dom().len()) + " values: "@ + join(
                by_presence(value_items(m)).map_values(|k: Seq<char>| value_entry(k, m[k])),
                " "@,
            )
        } else {
            example_text
        },
        None => example_text,
    }
}

/// The widest path name, counting at most 44 characters of each.
pub open spec fn name_width(names: Seq<Seq<char>>) -> nat
    decreases names.len(),
{
    if names.len() == 0 {
        0
    } else {
        let w = name_width(names.drop_last());
        let l = if names.last().len() < 44 { names.last().len() } else { 44 };
        if w < l { l } else { w }
    }
}

pub open spec fn path_line(p: Seq<char>, st: StatView, width: nat, total: u64) -> Seq<char> {
    "  "@ + pad_right(p, width) + "  "@ + pad_right(types_text(st.types), 7) + "  "@ + pad_left(
        pct_text(st.count, total),
        5,
    ) + "%  "@ + describe_text(st) + "\n"@
}

/// One entry per path, most present first.
pub open spec fn path_block(a: AccView) -> Seq<char> {
    let order = by_presence(path_items(a));
    concat(order.map_values(|k: Seq<char>| path_line(k, a.paths[k], name_width(order), a.json_lines)))
}

/// The whole report.
pub open spec fn report_text(a: AccView) -> Seq<char> {
    "input: "@ + decimal(a.json_lines as nat) + " json lines, "@ + decimal(a.text_lines as nat)
        + " text lines (text excluded below)\n"@ + "\ntop-level shapes: "@ + decimal(a.shapes.dom().len())
        + "\n"@ + shape_block(a) + "\npaths (by presence):\n"@ + path_block(a) + (if a.dropped_paths > 0 {
        "\n(!) path cap of 2000 reached: "@ + decimal(a.dropped_paths as nat)
            + " occurrences of further paths not shown\n"@
    } else {
        Seq::empty()
    })
}


/// Appends the presence percentage of `count` among `total` lines.
fn push_pct(out: &mut String, count: u64, total: u64)
    ensures
        final(out)@ == old(out)@ + pct_text(count, total),
{
    push_tenths(out, presence(count, total));
}

/// Appends the names of the types seen, separated by `|`.
fn push_types(out: &mut String, t: TypeSet)
    ensures
        final(out)@ == old(out)@ + types_text(t),
{
    let mut names: Vec<Vec<char>> = Vec::new();
    if t.array {
        names.push(chars_of("array"));
    }
    if t.boolean {
        names.push(chars_of("bool"));
    }
    if t.null {
        names.push(chars_of("null"));
    }
    if t.number {
        names.push(chars_of("number"));
    }
    if t.object {
        names.push(chars_of("object"));
    }
    if t.string {
        names.push(chars_of("string"));
    }
    assert(names@.map_values(|p: Vec<char>| p@) =~= type_names(t));
    push_joined(out, &names, '|');
    assert(seq!['|'] == "|"@) by {
        reveal_strlit("|");
    }
}

/// Value column: distinct values (a discriminant candidate) or an example.
pub fn describe(stat: &PathStat) -> (r: String)
    requires
        stat.wf(),
    ensures
        r@ == describe_text(stat@),
{
    let mut out = String::new();
    let mut example = String::new();
    match &stat.example {
        Some(e) => {
            push_str(&mut example, "e.g. ");
            push_str(&mut example, e.as_str());
        },
        None => {},
    }
    match &stat.values {
        Some(m) => {
            let n = m.len();
            if n > 0 {
                proof {
                    m.lemma_entries();
                    m.lemma_key_listing();
                }
                let mut items: Vec<(u64, Vec<char>)> = Vec::new();
                let mut i: usize = 0;
                while i < n
                    invariant
                        m.wf(),
                        n == m.key_seq().len(),
                        i <= n,
                        items@.len() == i,
                        forall|j: int| 0 <= j < i ==> #[trigger] items@[j].1@ == m.key_seq()[j]
                            && items@[j].0 == m.val_seq()[j],
                    decreases n - i,
                {
                    let k = copy_chars(m.key_at(i));
                    let c = *m.value_at(i);
                    items.push((c, k));
                    i += 1;
                }
                let ghost iv = value_items(m@);
                assert(items_view(items@) =~= iv);
                assert(distinct_items(iv)) by {
                    assert forall|a: int, b: int| 0 <= a < iv.len() && 0 <= b < iv.len() && a != b implies iv[a] != iv[b] by {
                        assert(m.key_seq()[a] != m.key_seq()[b]);
                    }
                }
                let order = rank(&items);
                let ghost names = by_presence(iv);
                let ghost entries = names.map_values(|k: Seq<char>| value_entry(k, m@[k]));
                push_decimal(&mut out, n as u64);
                push_str(&mut out, " values: ");
                let ghost start = out@;
                let mut p: usize = 0;
                while p < n
                    invariant
                        m.wf(),
                        n == m.key_seq().len(),
                        p <= n,
                        order@ == ranked(iv),
                        crate::rank::is_ranking(iv, order@),
                        iv == value_items(m@),
                        items_view(items@) == iv,
                        names == by_presence(iv),
                        entries == names.map_values(|k: Seq<char>| value_entry(k, m@[k])),
                        m.key_seq() == listing(m@.dom()),
                        forall|j: int| 0 <= j < n ==> #[trigger] m@[m.key_seq()[j]] == m.val_seq()[j],
                        out@ == start + join(entries.take(p as int), " "@),
                    decreases n - p,
                {
                    let idx = order[p];
                    let key = m.key_at(idx);
                    let c = *m.value_at(idx);
                    assert(names[p as int] == m.key_seq()[idx as int]);
                    assert(entries[p as int] == value_entry(key@, c));
                    if p > 0 {
                        push_str(&mut out, " ");
                    }
                    push_clean_clipped(&mut out, key.as_slice(), EXAMPLE_CHARS);
                    push_str(&mut out, "(");
                    push_decimal(&mut out, c);
                    push_str(&mut out, ")");
                    assert(entries.take(p + 1).drop_last() == entries.take(p as int));
                    if p == 0 {
                        assert(entries.take(0) =~= Seq::<Seq<char>>::empty());
                    }
                    p += 1;
                }
                assert(entries.take(n as int) == entries);
                return out;
            }
        },
        None => {},
    }
    example
}


fn push_path_line(out: &mut String, key: &Vec<char>, st: &PathStat, width: usize, total: u64)
    requires
        st.wf(),
    ensures
        final(out)@ == old(out)@ + path_line(key@, st@, width as nat, total),
{
    push_str(out, "  ");
    push_pad_right(out, key.as_slice(), width);
    push_str(out, "  ");
    let mut types = String::new();
    push_types(&mut types, st.types);
    let tc = chars_of(types.as_str());
    push_pad_right(out, tc.as_slice(), 7);
    push_str(out, "  ");
    let mut pct = String::new();
    push_pct(&mut pct, st.count, total);
    let pc = chars_of(pct.as_str());
    push_pad_left(out, pc.as_slice(), 5);
    push_str(out, "%  ");
    let d = describe(st);
    push_str(out, d.as_str());
    push_str(out, "\n");
}

impl Accumulator {
    fn push_shapes(&self, out: &mut String)
        requires
            self.wf(),
        ensures
            final(out)@ == old(out)@ + shape_block(self@),
            crate::rank::is_ranking(shape_items(self@), ranked(shape_items(self@))),
    {
        let m = &self.shapes;
        let ghost a = self@;
        proof {
            m.lemma_entries();
            m.lemma_key_listing();
            assert(a.shapes.dom() =~= m@.dom());
        }
        let n = m.len();
        let mut items: Vec<(u64, Vec<char>)> = Vec::new();
        let mut i: usize = 0;
        while i < n
            invariant
                m.wf(),
                n == m.key_seq().len(),
                n == m.val_seq().len(),
                i <= n,
                items@.len() == i,
                forall|j: int| 0 <= j < i ==> #[trigger] items@[j].1@ == m.key_seq()[j]
                    && items@[j].0 == m.val_seq()[j].count,
            decreases n - i,
        {
            let k = copy_chars(m.key_at(i));
            let c = m.value_at(i).count;
            items.push((c, k));
            i += 1;
        }
        let ghost iv = shape_items(a);
        assert(items_view(items@) =~= iv);
        assert(distinct_items(iv)) by {
            assert forall|x: int, y: int| 0 <= x < iv.len() && 0 <= y < iv.len() && x != y implies iv[x] != iv[y] by {
                assert(m.key_seq()[x] != m.key_seq()[y]);
            }
        }
        let order = rank(&items);
        let ghost names = by_presence(iv);
        let ghost lines = names.map_values(|k: Seq<char>| shape_line(k, a.shapes[k]));
        let ghost start = out@;
        let mut p: usize = 0;
        while p < n
            invariant
                m.wf(),
                n == m.key_seq().len(),
                n == m.val_seq().len(),
                iv.len() == n,
                forall|j: int| 0 <= j < n ==> m@.contains_key(#[trigger] m.key_seq()[j]),
                p <= n,
                order@ == ranked(iv),
                crate::rank::is_ranking(iv, order@),
                iv == shape_items(a),
                items_view(items@) == iv,
                names == by_presence(iv),
                lines == names.map_values(|k: Seq<char>| shape_line(k, a.shapes[k])),
                m.key_seq() == listing(a.shapes.dom()),
                a.shapes == m@.map_values(|s: Shape| s@),
                forall|j: int| 0 <= j < n ==> #[trigger] m@[m.key_seq()[j]] == m.val_seq()[j],
                out@ == start + concat(lines.take(p as int)),
            decreases n - p,
        {
            let idx = order[p];
            let key = m.key_at(idx);
            let sh = m.value_at(idx);
            assert(names[p as int] == m.key_seq()[idx as int]);
            assert(a.shapes[key@] == sh@);
            assert(lines[p as int] == shape_line(key@, sh@));
            push_str(out, "  ");
            let digits = crate::text::decimal_chars(sh.count);
            push_pad_left(out, digits.as_slice(), 8);
            push_str(out, "x  keys: ");
            push_chars(out, key.as_slice());
            push_str(out, "\n");
            push_str(out, "             e.g. ");
            push_str(out, sh.exemplar.as_str());
            push_str(out, "\n");
            assert(lines.take(p + 1).drop_last() == lines.take(p as int));
            p += 1;
        }
        assert(lines.take(n as int) == lines);
    }

    fn push_paths(&self, out: &mut String)
        requires
            self.wf(),
        ensures
            final(out)@ == old(out)@ + path_block(self@),
            crate::rank::is_ranking(path_items(self@), ranked(path_items(self@))),
    {
        let m = &self.paths;
        let ghost a = self@;
        proof {
            m.lemma_entries();
            m.lemma_key_listing();
            assert(a.paths.dom() =~= m@.dom());
        }
        let n = m.len();
        let mut items: Vec<(u64, Vec<char>)> = Vec::new();
        let mut i: usize = 0;
        while i < n
            invariant
                m.wf(),
                n == m.key_seq().len(),
                n == m.val_seq().len(),
                i <= n,
                items@.len() == i,
                forall|j: int| 0 <= j < i ==> #[trigger] items@[j].1@ == m.key_seq()[j]
                    && items@[j].0 == m.val_seq()[j].count,
            decreases n - i,
        {
            let k = copy_chars(m.key_at(i));
            let c = m.value_at(i).count;
            items.push((c, k));
            i += 1;
        }
        let ghost iv = path_items(a);
        assert(items_view(items@) =~= iv);
        assert(distinct_items(iv)) by {
            assert forall|x: int, y: int| 0 <= x < iv.len() && 0 <= y < iv.len() && x != y implies iv[x] != iv[y] by {
                assert(m.key_seq()[x] != m.key_seq()[y]);
            }
        }
        let order = rank(&items);
        let ghost names = by_presence(iv);
        let mut width: usize = 0;
        let mut p: usize = 0;
        while p < n
            invariant
                m.wf(),
                n == m.key_seq().len(),
                n == m.val_seq().len(),
                iv.len() == n,
                forall|j: int| 0 <= j < n ==> m@.contains_key(#[trigger] m.key_seq()[j]),
                p <= n,
                order@ == ranked(iv),
                crate::rank::is_ranking(iv, order@),
                items_view(items@) == iv,
                names == by_presence(iv),
                width == name_width(names.take(p as int)),
                width <= 44,
            decreases n - p,
        {
            let idx = order[p];
            let len = items[idx].1.len();
            let l = if len < 44 { len } else { 44 };
            if width < l {
                width = l;
            }
            assert(names[p as int] == items@[idx as int].1@);
            assert(names.take(p + 1).drop_last() == names.take(p as int));
            p += 1;
        }
        assert(names.take(n as int) == names);
        let ghost lines = names.map_values(|k: Seq<char>| path_line(k, a.paths[k], name_width(names), a.json_lines));
        let ghost start = out@;
        let mut p: usize = 0;
        while p < n
            invariant
                m.wf(),
                forall|j: int| 0 <= j < m.val_seq().len() ==> (#[trigger] m.val_seq()[j]).wf(),
                n == m.key_seq().len(),
                n == m.val_seq().len(),
                iv.len() == n,
                forall|j: int| 0 <= j < n ==> m@.contains_key(#[trigger] m.key_seq()[j]),
                p <= n,
                order@ == ranked(iv),
                crate::rank::is_ranking(iv, order@),
                iv == path_items(a),
                items_view(items@) == iv,
                names == by_presence(iv),
                width == name_width(names),
                lines == names.map_values(|k: Seq<char>| path_line(k, a.paths[k], name_width(names), a.json_lines)),
                m.key_seq() == listing(a.paths.dom()),
                a.paths == m@.map_values(|s: PathStat| s@),
                a.json_lines == self.json_lines,
                forall|j: int| 0 <= j < n ==> #[trigger] m@[m.key_seq()[j]] == m.val_seq()[j],
                out@ == start + concat(lines.take(p as int)),
            decreases n - p,
        {
            let idx = order[p];
            let key = m.key_at(idx);
            let st = m.value_at(idx);
            assert(names[p as int] == m.key_seq()[idx as int]);
            assert(a.paths[key@] == st@);
            assert(lines[p as int] == path_line(key@, st@, width as nat, self.json_lines));
            assert(st.wf());
            push_path_line(out, key, st, width, self.json_lines);
            assert(lines.take(p + 1).drop_last() == lines.take(p as int));
            p += 1;
        }
        assert(lines.take(n as int) == lines);
    }

    /// The structure report: line counts, top-level shapes and every path with its
    /// types, presence and values. Presence is printed as the double quotient of a
    /// path's count and the JSON lines, times 100, prints with one decimal (see
    /// `pct_text`).
    ///
    /// Shapes and paths are listed by count, most first, ties by name in ascending
    /// order, each exactly once: the listings are rankings (`is_ranking`) of the
    /// ascending listing of the names.
    pub fn report(&self) -> (out: String)
        requires
            self.wf(),
        ensures
            out@ == report_text(self@),
            crate::rank::is_ranking(shape_items(self@), ranked(shape_items(self@))),
            crate::rank::is_ranking(path_items(self@), ranked(path_items(self@))),
            lex_strict(listing(self@.shapes.dom())) && listing(self@.shapes.dom()).to_set() == self@.shapes.dom(),
            lex_strict(listing(self@.paths.dom())) && listing(self@.paths.dom()).to_set() == self@.paths.dom(),
    {
        let mut out = String::new();
        push_str(&mut out, "input: ");
        push_decimal(&mut out, self.json_lines);
        push_str(&mut out, " json lines, ");
        push_decimal(&mut out, self.text_lines);
        push_str(&mut out, " text lines (text excluded below)\n");
        push_str(&mut out, "\ntop-level shapes: ");
        proof {
            self.shapes.lemma_entries();
            assert(self@.shapes.dom() =~= self.shapes@.dom());
        }
        let n = self.shapes.len();
        push_decimal(&mut out, n as u64);
        push_str(&mut out, "\n");
        self.push_shapes(&mut out);
        proof {
            self.shapes.lemma_key_listing();
            self.paths.lemma_key_listing();
            assert(self@.paths.dom() =~= self.paths@.dom());
        }
        push_str(&mut out, "\npaths (by presence):\n");
        self.push_paths(&mut out);
        if self.dropped_paths > 0 {
            push_str(&mut out, "\n(!) path cap of 2000 reached: ");
            push_decimal(&mut out, self.dropped_paths);
            push_str(&mut out, " occurrences of further paths not shown\n");
        }
        out
    }
}


/// `s` with control characters as spaces, clipped to `max` characters (`…` marks a cut).
pub fn truncate(s: &str, max: usize) -> (r: String)
    ensures
        r@ == clipped(sanitized(s@), max as nat),
{
    let cs = chars_of(s);
    let mut r = String::new();
    push_clean_clipped(&mut r, cs.as_slice(), max);
    r
}

impl Default for Accumulator {
    fn default() -> (a: Self)
        ensures
            a.wf(),
            a@ == (AccView {
                json_lines: 0,
                text_lines: 0,
                paths: Map::empty(),
                dropped_paths: 0,
                shapes: Map::empty(),
            }),
    {
        Accumulator::new()
    }
}

/// Every counted path has been seen at least once.
pub open spec fn counts_positive(a: AccView) -> bool {
    forall|p: Seq<char>| #[trigger] a.paths.contains_key(p) ==> a.paths[p].count >= 1
}

proof fn lemma_record_all_keeps_lines(a: AccView, occ: Seq<(Seq<char>, Json)>)
    ensures
        record_all(a, occ).json_lines == a.json_lines,
        record_all(a, occ).text_lines == a.text_lines,
        record_all(a, occ).shapes == a.shapes,
    decreases occ.len(),
{
    if occ.len() > 0 {
        lemma_record_all_keeps_lines(a, occ.drop_last());
    }
}

proof fn lemma_record_all_keeps(a: AccView, occ: Seq<(Seq<char>, Json)>)
    requires
        counts_positive(a),
    ensures
        counts_positive(record_all(a, occ)),
        record_all(a, occ).json_lines == a.json_lines,
        record_all(a, occ).text_lines == a.text_lines,
        record_all(a, occ).shapes == a.shapes,
    decreases occ.len(),
{
    if occ.len() > 0 {
        lemma_record_all_keeps(a, occ.drop_last());
    }
}

/// Each added line is counted once, as a JSON line or as a text line; the paths
/// and shapes change only for a JSON line; and every counted path has been seen.
/// Over any sequence of `add` calls from a new accumulator (while the counters stay
/// below `u64::MAX`), `json_lines + text_lines` is the number of calls.
pub proof fn lemma_add_counts_each_line(a: AccView, raw: Seq<char>, json: Option<Json>)
    requires
        a.json_lines < u64::MAX,
        a.text_lines < u64::MAX,
        counts_positive(a),
    ensures
        add_line(a, raw, json).json_lines + add_line(a, raw, json).text_lines == a.json_lines + a.text_lines + 1,
        add_line(a, raw, json).json_lines == a.json_lines + (if json is Some { 1int } else { 0 }),
        json is None ==> add_line(a, raw, json) == (AccView { text_lines: (a.text_lines + 1) as u64, ..a }),
        counts_positive(add_line(a, raw, json)),
{
    match json {
        None => {},
        Some(v) => {
            let sig = signature(v);
            let sh = if a.shapes.contains_key(sig) {
                a.shapes[sig]
            } else {
                ShapeView { count: 0, exemplar: clipped(sanitized(raw), EXEMPLAR_CHARS as nat) }
            };
            let a1 = AccView {
                json_lines: sat_inc(a.json_lines),
                shapes: a.shapes.insert(sig, ShapeView { count: sat_inc(sh.count), ..sh }),
                ..a
            };
            lemma_record_all_keeps(a1, occurrences(v, Seq::empty()));
        },
    }
}

/// How a fold adds up the shape counts.
pub open spec fn add_count(m: Map<Seq<char>, ShapeView>) -> spec_fn(int, Seq<char>) -> int {
    |acc: int, k: Seq<char>| acc + m[k].count
}

/// The sum of the shape counts.
pub open spec fn shape_sum(m: Map<Seq<char>, ShapeView>) -> int {
    m.dom().fold(0int, add_count(m))
}

proof fn lemma_add_count_commutes(m: Map<Seq<char>, ShapeView>)
    ensures
        vstd::set::fold::is_fun_commutative(add_count(m)),
{
}

proof fn lemma_fold_agrees(s: Set<Seq<char>>, m1: Map<Seq<char>, ShapeView>, m2: Map<Seq<char>, ShapeView>)
    requires
        s.finite(),
        forall|k: Seq<char>| #[trigger] s.contains(k) ==> m1[k].count == m2[k].count,
    ensures
        s.fold(0int, add_count(m1)) == s.fold(0int, add_count(m2)),
    decreases s.len(),
{
    lemma_add_count_commutes(m1);
    lemma_add_count_commutes(m2);
    if s.len() == 0 {
        assert(s =~= Set::<Seq<char>>::empty());
        vstd::set::fold::lemma_fold_empty(0int, add_count(m1));
        vstd::set::fold::lemma_fold_empty(0int, add_count(m2));
    } else {
        let a = s.choose();
        assert(s.contains(a)) by {
            vstd::set_lib::lemma_set_empty_equivalency_len(s);
        }
        let r = s.remove(a);
        assert(r.insert(a) =~= s);
        lemma_fold_agrees(r, m1, m2);
        vstd::set::fold::lemma_fold_insert(r, 0int, add_count(m1), a);
        vstd::set::fold::lemma_fold_insert(r, 0int, add_count(m2), a);
    }
}

proof fn lemma_shape_sum_insert(m: Map<Seq<char>, ShapeView>, k: Seq<char>, v: ShapeView)
    requires
        m.dom().finite(),
    ensures
        shape_sum(m.insert(k, v)) == shape_sum(m) - (if m.contains_key(k) { m[k].count as int } else { 0 })
            + v.count,
{
    let m2 = m.insert(k, v);
    let r = m.dom().remove(k);
    lemma_add_count_commutes(m);
    lemma_add_count_commutes(m2);
    lemma_fold_agrees(r, m, m2);
    assert(m2.dom() =~= r.insert(k));
    vstd::set::fold::lemma_fold_insert(r, 0int, add_count(m2), k);
    if m.contains_key(k) {
        assert(m.dom() =~= r.insert(k));
        vstd::set::fold::lemma_fold_insert(r, 0int, add_count(m), k);
    } else {
        assert(m.dom() =~= r);
    }
}

/// The JSON lines are exactly the lines bucketed into shapes: `json_lines` is the
/// sum of the shape counts.
pub open spec fn shapes_count_lines(a: AccView) -> bool {
    &&& a.shapes.dom().finite()
    &&& shape_sum(a.shapes) == a.json_lines as int
    &&& forall|k: Seq<char>| #[trigger] a.shapes.contains_key(k) ==> a.shapes[k].count <= a.json_lines
}

/// A new accumulator has no shapes and no JSON lines.
pub proof fn lemma_no_shapes_no_lines(a: AccView)
    requires
        a.shapes == Map::<Seq<char>, ShapeView>::empty(),
        a.json_lines == 0,
    ensures
        shapes_count_lines(a),
{
    assert(a.shapes.dom() =~= Set::<Seq<char>>::empty());
    vstd::set::fold::lemma_fold_empty(0int, add_count(a.shapes));
}

/// Every added line keeps `json_lines` equal to the sum of the shape counts, while
/// the count stays below `u64::MAX`.
pub proof fn lemma_add_keeps_shape_sum(a: AccView, raw: Seq<char>, json: Option<Json>)
    requires
        shapes_count_lines(a),
        a.json_lines < u64::MAX,
        counts_positive(a),
    ensures
        shapes_count_lines(add_line(a, raw, json)),
{
    match json {
        None => {},
        Some(v) => {
            let sig = signature(v);
            let sh = if a.shapes.contains_key(sig) {
                a.shapes[sig]
            } else {
                ShapeView { count: 0, exemplar: clipped(sanitized(raw), EXEMPLAR_CHARS as nat) }
            };
            let nsh = ShapeView { count: sat_inc(sh.count), ..sh };
            let a1 = AccView { json_lines: sat_inc(a.json_lines), shapes: a.shapes.insert(sig, nsh), ..a };
            lemma_shape_sum_insert(a.shapes, sig, nsh);
            lemma_record_all_keeps(a1, occurrences(v, Seq::empty()));
            assert(a1.shapes.dom() =~= a.shapes.dom().insert(sig));
        },
    }
}

/// The paths of occurrences.
pub open spec fn occurrence_paths(occ: Seq<(Seq<char>, Json)>) -> Seq<Seq<char>> {
    occ.map_values(|o: (Seq<char>, Json)| o.0)
}

/// The count of `p` in `a`, 0 when it is not counted.
pub open spec fn count_of(a: AccView, p: Seq<char>) -> int {
    if a.paths.contains_key(p) { a.paths[p].count as int } else { 0 }
}

proof fn lemma_record_all_once(a: AccView, occ: Seq<(Seq<char>, Json)>)
    requires
        occurrence_paths(occ).no_duplicates(),
    ensures
        forall|p: Seq<char>| #[trigger] record_all(a, occ).paths.contains_key(p) ==> count_of(record_all(a, occ), p)
            <= count_of(a, p) + (if occurrence_paths(occ).contains(p) { 1int } else { 0 }),
        forall|p: Seq<char>| #[trigger] record_all(a, occ).paths.contains_key(p) ==> a.paths.contains_key(p)
            || occurrence_paths(occ).contains(p),
    decreases occ.len(),
{
    if occ.len() > 0 {
        let init = occ.drop_last();
        assert(occurrence_paths(init) =~= occurrence_paths(occ).drop_last());
        lemma_record_all_once(a, init);
        let b = record_all(a, init);
        let last = occ.last();
        assert(occurrence_paths(occ)[occ.len() - 1] == last.0);
        assert(!occurrence_paths(init).contains(last.0)) by {
            if occurrence_paths(init).contains(last.0) {
                let i = choose|i: int| 0 <= i < init.len() && occurrence_paths(init)[i] == last.0;
                assert(occurrence_paths(occ)[i] == occurrence_paths(occ)[occ.len() - 1]);
            }
        }
        assert forall|p: Seq<char>| occurrence_paths(init).contains(p) implies occurrence_paths(occ).contains(p) by {
            let i = choose|i: int| 0 <= i < init.len() && occurrence_paths(init)[i] == p;
            assert(occurrence_paths(occ)[i] == p);
        }
        assert(occurrence_paths(occ).contains(last.0));
    }
}

/// No path is counted more often than there are JSON lines, when each line meets
/// each of its paths once (which holds unless an object key itself contains a dot,
/// so that `{"a.b":1,"a":{"b":2}}` meets `a.b` twice).
pub proof fn lemma_path_counts_within_lines(a: AccView, raw: Seq<char>, json: Option<Json>)
    requires
        a.json_lines < u64::MAX,
        forall|p: Seq<char>| #[trigger] a.paths.contains_key(p) ==> a.paths[p].count <= a.json_lines,
        json matches Some(v) ==> occurrence_paths(occurrences(v, Seq::empty())).no_duplicates(),
    ensures
        forall|p: Seq<char>| #[trigger] add_line(a, raw, json).paths.contains_key(p)
            ==> add_line(a, raw, json).paths[p].count <= add_line(a, raw, json).json_lines,
{
    match json {
        None => {},
        Some(v) => {
            let sig = signature(v);
            let sh = if a.shapes.contains_key(sig) {
                a.shapes[sig]
            } else {
                ShapeView { count: 0, exemplar: clipped(sanitized(raw), EXEMPLAR_CHARS as nat) }
            };
            let a1 = AccView {
                json_lines: sat_inc(a.json_lines),
                shapes: a.shapes.insert(sig, ShapeView { count: sat_inc(sh.count), ..sh }),
                ..a
            };
            let occ = occurrences(v, Seq::empty());
            lemma_record_all_once(a1, occ);
            lemma_record_all_keeps_lines(a1, occ);
            let r = record_all(a1, occ);
            assert forall|p: Seq<char>| #[trigger] r.paths.contains_key(p) implies r.paths[p].count <= r.json_lines by {
                assert(count_of(r, p) <= count_of(a1, p) + 1);
            }
        },
    }
}

/// Counts `n` more occurrences of `s`.
pub open spec fn track_times(values: Option<Map<Seq<char>, u64>>, s: Seq<char>, n: nat) -> Option<Map<Seq<char>, u64>>
    decreases n,
{
    if n == 0 {
        values
    } else {
        track_value(track_times(values, s, (n - 1) as nat), s)
    }
}

/// A path's tally counts every occurrence of a value: recording a value already in
/// the tally raises its count by one and leaves the others alone; a new value, while
/// there is room, enters with count one; a new value past the cap drops the tally.
pub proof fn lemma_track_counts_occurrences(m: Map<Seq<char>, u64>, s: Seq<char>)
    requires
        m.dom().finite(),
        m.dom().len() <= MAX_DISTINCT,
    ensures
        m.contains_key(s) && m[s] < u64::MAX ==> (track_value(Some(m), s) matches Some(r) && r.dom() == m.dom()
            && r[s] == m[s] + 1 && forall|t: Seq<char>| #[trigger] m.contains_key(t) && t != s ==> r[t] == m[t]),
        !m.contains_key(s) && m.dom().len() < MAX_DISTINCT ==> (track_value(Some(m), s) matches Some(r)
            && r.dom() == m.dom().insert(s) && r[s] == 1 && forall|t: Seq<char>| #[trigger] m.contains_key(t)
            ==> r[t] == m[t]),
        !m.contains_key(s) && m.dom().len() == MAX_DISTINCT ==> track_value(Some(m), s) is None,
{
    if m.contains_key(s) {
        assert(m.insert(s, sat_inc(m[s])).dom() =~= m.dom());
    } else {
        assert(m.insert(s, 1).dom() =~= m.dom().insert(s));
    }
}

/// After `n` occurrences of a value that was not tallied, its count is `n` (while the
/// tally has room for it).
pub proof fn lemma_track_counts_repeats(m: Map<Seq<char>, u64>, s: Seq<char>, n: nat)
    requires
        m.dom().finite(),
        m.dom().len() < MAX_DISTINCT,
        !m.contains_key(s),
        1 <= n < u64::MAX,
    ensures
        track_times(Some(m), s, n) matches Some(r) && r.dom() == m.dom().insert(s) && r[s] == n
            && forall|t: Seq<char>| #[trigger] m.contains_key(t) ==> r[t] == m[t],
    decreases n,
{
    lemma_track_counts_occurrences(m, s);
    if n > 1 {
        lemma_track_counts_repeats(m, s, (n - 1) as nat);
        let r = track_times(Some(m), s, (n - 1) as nat)->0;
        assert(r.dom().len() == m.dom().len() + 1);
        lemma_track_counts_occurrences(r, s);
    }
}

impl Accumulator {
    /// The caps hold: at most `MAX_PATHS` paths are counted, and a path tallies at
    /// most `MAX_DISTINCT` distinct values.
    pub proof fn lemma_caps_hold(&self)
        requires
            self.wf(),
        ensures
            self@.paths.dom().len() <= MAX_PATHS,
            forall|p: Seq<char>| #[trigger] self@.paths.contains_key(p) ==> (self@.paths[p].values matches Some(
                m,
            ) ==> m.dom().len() <= MAX_DISTINCT),
    {
        self.paths.lemma_entries();
        assert(self@.paths.dom() =~= self.paths@.dom());
        assert forall|p: Seq<char>| #[trigger] self@.paths.contains_key(p) implies (self@.paths[p].values matches Some(
            m,
        ) ==> m.dom().len() <= MAX_DISTINCT) by {
            assert(self.paths@.contains_key(p));
            let i = choose|i: int| 0 <= i < self.paths.key_seq().len() && self.paths.key_seq()[i] == p;
            assert(self.paths@[p] == self.paths.val_seq()[i]);
            assert(self.paths.val_seq()[i].wf());
        }
    }
}

} // verus!
