use oxtail::app::LogLine;
use oxtail::paths::{track, truncate, Accumulator};
use oxtail::presence::presence;
use oxtail::strmap::StrMap;

fn feed(lines: &[&str]) -> String {
    let mut acc = Accumulator::default();
    for l in lines {
        let line = LogLine::parse(l.to_string());
        acc.add(l, line.json.as_ref());
    }
    acc.report()
}

#[test]
fn counts_presence_and_types() {
    let report = feed(&[r#"{"type":"A","n":1}"#, r#"{"type":"B","n":2,"extra":{"deep":true}}"#, "not json"]);
    assert!(report.contains("2 json lines, 1 text lines"), "{report}");
    assert!(report.contains("100.0%"), "{report}");
    assert!(report.contains("extra.deep"), "{report}");
    assert!(report.contains("2 values: A(1) B(1)"), "{report}");
}

#[test]
fn buckets_top_level_shapes() {
    let report = feed(&[r#"{"a":1,"b":2}"#, r#"{"a":3,"b":4}"#, r#"{"c":5}"#]);
    assert!(report.contains("top-level shapes: 2"), "{report}");
    assert!(report.contains("2x  keys: a,b"), "{report}");
}

#[test]
fn array_paths_use_index_zero() {
    let report = feed(&[r#"{"commits":[{"sha":"abc"},{"sha":"def"}]}"#]);
    assert!(report.contains("commits.0.sha"), "{report}");
}

#[test]
fn whole_report_of_a_small_stream() {
    let report = feed(&[r#"{"t":"x","n":1}"#, r#"{"t":"y"}"#, "text", r#"[5]"#]);
    let expected = "input: 3 json lines, 1 text lines (text excluded below)\n\
\n\
top-level shapes: 3\n\
\x20        1x  keys: (non-object line)\n\
\x20            e.g. [5]\n\
\x20        1x  keys: n,t\n\
\x20            e.g. {\"t\":\"x\",\"n\":1}\n\
\x20        1x  keys: t\n\
\x20            e.g. {\"t\":\"y\"}\n\
\n\
paths (by presence):\n\
\x20 t  string    66.7%  2 values: x(1) y(1)\n\
\x20 0  number    33.3%  e.g. 5\n\
\x20 n  number    33.3%  e.g. 1\n";
    assert_eq!(report, expected);
}

#[test]
fn empty_stream_report() {
    let report = feed(&[]);
    assert_eq!(
        report,
        "input: 0 json lines, 0 text lines (text excluded below)\n\ntop-level shapes: 0\n\npaths (by presence):\n"
    );
}

#[test]
fn mixed_types_and_bool_values() {
    let report = feed(&[r#"{"v":true}"#, r#"{"v":"s"}"#, r#"{"v":null}"#, r#"{"v":false}"#]);
    assert!(report.contains("  v  bool|null|string  100.0%  3 values: false(1) s(1) true(1)"), "{report}");
}

#[test]
fn many_distinct_values_fall_back_to_example() {
    let lines: Vec<String> = (0..30).map(|i| format!(r#"{{"id":"v{i}"}}"#)).collect();
    let refs: Vec<&str> = lines.iter().map(|s| s.as_str()).collect();
    let report = feed(&refs);
    assert!(report.contains("  id  string   100.0%  e.g. v0"), "{report}");
}

#[test]
fn truncate_sanitizes_and_clips() {
    assert_eq!(truncate("a\tb", 10), "a b");
    assert_eq!(truncate("abcdef", 3), "abc…");
    assert_eq!(truncate("abc", 3), "abc");
}

#[test]
fn track_stops_past_distinct_cap() {
    let mut values = Some(StrMap::new());
    for i in 0..24 {
        let v: Vec<char> = format!("v{i}").chars().collect();
        track(&mut values, &v);
    }
    assert_eq!(values.as_ref().unwrap().len(), 24);
    let v: Vec<char> = "v0".chars().collect();
    track(&mut values, &v);
    assert_eq!(values.as_ref().unwrap().len(), 24);
    let v: Vec<char> = "new".chars().collect();
    track(&mut values, &v);
    assert!(values.is_none());
}

fn tenths(t: u128) -> String {
    format!("{}.{}", t / 10, t % 10)
}

fn float_pct(count: u64, total: u64) -> String {
    format!("{:.1}", count as f64 / total.max(1) as f64 * 100.0)
}

#[test]
fn presence_prints_as_a_double_quotient() {
    assert_eq!(tenths(presence(23, 80)), "28.7");
    assert_eq!(tenths(presence(49, 80)), "61.3");
    assert_eq!(tenths(presence(2, 3)), "66.7");
    assert_eq!(tenths(presence(5, 0)), "500.0");
    for total in 0..=400u64 {
        for count in 0..=total + 3 {
            assert_eq!(tenths(presence(count, total)), float_pct(count, total), "{count}/{total}");
        }
    }
}

#[test]
fn presence_of_large_counts() {
    let big = [
        1u64,
        3,
        (1 << 53) - 1,
        1 << 53,
        (1 << 53) + 1,
        (1 << 60) + 12345,
        u64::MAX - 1,
        u64::MAX,
        999_999_999_999,
        7_777_777_777_777_777,
    ];
    for &c in &big {
        for &t in &big {
            assert_eq!(tenths(presence(c, t)), float_pct(c, t), "{c}/{t}");
        }
    }
}
