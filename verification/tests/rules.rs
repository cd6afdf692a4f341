use oxtail::app::LogLine;
use oxtail::config::{RawConfig, RawFormat, RawRule, RawWhen, RuleSet, TermColor, TomlValue};
use oxtail::format::Template;
use oxtail::json::Json;
use oxtail::piece::Tone;

fn record(json: &str) -> Json {
    LogLine::parse(json.to_string()).json.unwrap()
}

fn when(path: &str) -> RawWhen {
    RawWhen { path: path.into(), equals: None, contains: None, exists: None }
}

fn rule(w: RawWhen, format: &str, color: Option<&str>) -> RawRule {
    RawRule { when: w, format: format.into(), color: color.map(String::from) }
}

/// The three rules and fallback of the sample config.
fn sample() -> RawConfig {
    let push = RawWhen { equals: Some(TomlValue::String("PushEvent".into())), ..when("type") };
    let opened = RawWhen { contains: Some("open".into()), ..when("payload.action") };
    let error = RawWhen { exists: Some(true), ..when("error") };
    RawConfig {
        rule: vec![
            rule(push, "push {repo.name}", Some("green")),
            rule(opened, "opened #{payload.number}", None),
            rule(error, "ERR {error}", Some("red")),
        ],
        fallback: Some(RawFormat { format: "{type} {repo.name}".into(), color: None }),
    }
}

fn fmt(rules: &RuleSet, json: &str) -> Option<String> {
    rules
        .format_line(&record(json))
        .map(|f| f.pieces.iter().map(|p| p.text.as_str()).collect())
}

fn err_of(raw: RawConfig) -> String {
    match RuleSet::compile(&raw) {
        Ok(_) => panic!("config accepted"),
        Err(e) => e,
    }
}

#[test]
fn first_matching_rule_wins() {
    let rules = RuleSet::compile(&sample()).ok().unwrap();
    assert_eq!(fmt(&rules, r#"{"type":"PushEvent","repo":{"name":"a/b"}}"#).unwrap(), "push a/b");
    assert_eq!(fmt(&rules, r#"{"payload":{"action":"opened","number":7}}"#).unwrap(), "opened #7");
    assert_eq!(fmt(&rules, r#"{"error":"boom"}"#).unwrap(), "ERR boom");
}

#[test]
fn fallback_applies_when_no_rule_matches() {
    let rules = RuleSet::compile(&sample()).ok().unwrap();
    assert_eq!(fmt(&rules, r#"{"type":"ForkEvent","repo":{"name":"x/y"}}"#).unwrap(), "ForkEvent x/y");
}

#[test]
fn no_fallback_means_none() {
    let rules = RuleSet::compile(&RawConfig { rule: vec![], fallback: None }).ok().unwrap();
    assert!(fmt(&rules, r#"{"a":1}"#).is_none());
}

#[test]
fn rejects_ambiguous_matcher() {
    let w = RawWhen {
        equals: Some(TomlValue::String("x".into())),
        contains: Some("y".into()),
        ..when("a")
    };
    let err = err_of(RawConfig { rule: vec![rule(w, "z", None)], fallback: None });
    assert!(err.contains("exactly one of"), "{err}");
}

#[test]
fn rejects_unknown_color_with_hint() {
    let w = RawWhen { exists: Some(true), ..when("a") };
    let err = err_of(RawConfig { rule: vec![rule(w, "z", Some("greeen"))], fallback: None });
    assert!(err.contains("rule 1") && err.contains("greeen"), "{err}");
}

#[test]
fn rule_color_and_value_tone() {
    let rules = RuleSet::compile(&sample()).ok().unwrap();
    let f = rules.format_line(&record(r#"{"type":"PushEvent","repo":{"name":"a/b"}}"#)).unwrap();
    assert_eq!(f.color, Some(TermColor::Green));
    assert_eq!(f.pieces.len(), 2);
    assert_eq!(f.pieces[0].tone, Tone::Dim);
    assert_eq!(f.pieces[1].tone, Tone::Value);
}

#[test]
fn error_message_exact_for_ambiguous_matcher() {
    let ok = RawWhen { exists: Some(true), ..when("a") };
    let bad = RawWhen { exists: Some(false), ..when("b") };
    let err = err_of(RawConfig { rule: vec![rule(ok, "x", None), rule(bad, "y", None)], fallback: None });
    assert_eq!(err, "rule 2: `when` needs exactly one of `equals`, `contains`, or `exists = true`");
}

#[test]
fn rejects_equals_of_unsupported_kind() {
    let w = RawWhen { equals: Some(TomlValue::Other("array".into())), ..when("a") };
    let err = err_of(RawConfig { rule: vec![rule(w, "x", None)], fallback: None });
    assert_eq!(err, "rule 1: `equals` must be a string, number, or boolean (got a array)");
}

#[test]
fn rejects_bad_template_in_rule_and_fallback() {
    let w = RawWhen { exists: Some(true), ..when("a") };
    let err = err_of(RawConfig { rule: vec![rule(w, "{}", None)], fallback: None });
    assert_eq!(err, "rule 1: empty {} placeholder in template");
    let err = err_of(RawConfig {
        rule: vec![],
        fallback: Some(RawFormat { format: "oops }".into(), color: None }),
    });
    assert_eq!(err, "fallback: unmatched '}' in template (use \"}}\" for a literal brace)");
    let err = err_of(RawConfig {
        rule: vec![],
        fallback: Some(RawFormat { format: "ok".into(), color: Some("nope".into()) }),
    });
    assert_eq!(
        err,
        "fallback: unknown color \"nope\" (try: red, green, yellow, blue, magenta, cyan, gray, lightgreen, ..., or \"#rrggbb\")"
    );
}

#[test]
fn equals_matches_numbers_and_booleans() {
    let n = RawWhen { equals: Some(TomlValue::Integer(7)), ..when("n") };
    let b = RawWhen { equals: Some(TomlValue::Boolean(true)), ..when("ok") };
    let neg = RawWhen { equals: Some(TomlValue::Integer(-3)), ..when("d") };
    let half = RawWhen {
        equals: Some(TomlValue::Float { bits: 0.5f64.to_bits(), text: "0.5".into() }),
        ..when("f")
    };
    let raw = RawConfig {
        rule: vec![rule(n, "seven", None), rule(b, "yes", None), rule(neg, "minus three", None), rule(half, "half", None)],
        fallback: None,
    };
    let rules = RuleSet::compile(&raw).ok().unwrap();
    assert_eq!(fmt(&rules, r#"{"n":7}"#).unwrap(), "seven");
    assert_eq!(fmt(&rules, r#"{"n":7.0}"#), None);
    assert_eq!(fmt(&rules, r#"{"ok":true}"#).unwrap(), "yes");
    assert_eq!(fmt(&rules, r#"{"d":-3}"#).unwrap(), "minus three");
    assert_eq!(fmt(&rules, r#"{"f":0.5}"#).unwrap(), "half");
    assert_eq!(fmt(&rules, r#"{"n":"7"}"#), None);
}

#[test]
fn contains_needs_a_string() {
    let w = RawWhen { contains: Some("1".into()), ..when("v") };
    let rules = RuleSet::compile(&RawConfig { rule: vec![rule(w, "hit", None)], fallback: None }).ok().unwrap();
    assert_eq!(fmt(&rules, r#"{"v":"x1y"}"#).unwrap(), "hit");
    assert_eq!(fmt(&rules, r#"{"v":1}"#), None);
    assert_eq!(fmt(&rules, r#"{"w":"1"}"#), None);
}

#[test]
fn format_flag_formats_every_record() {
    let t = Template::parse("{type}!").ok().unwrap();
    let rules = RuleSet::from_template(t);
    assert_eq!(fmt(&rules, r#"{"type":"X"}"#).unwrap(), "X!");
    assert_eq!(fmt(&rules, r#"{"other":1}"#).unwrap(), "-!");
}

#[test]
fn colors_are_read_by_name_index_and_hex() {
    let colors = ["Light-Blue", "grey", "#00ff7f", "200", "red"];
    let raw = RawConfig {
        rule: colors
            .iter()
            .map(|c| rule(RawWhen { exists: Some(true), ..when(c) }, "x", Some(c)))
            .collect(),
        fallback: None,
    };
    let rules = RuleSet::compile(&raw).ok().unwrap();
    let got: Vec<Option<TermColor>> = colors
        .iter()
        .map(|c| rules.format_line(&record(&format!(r#"{{"{c}":1}}"#))).unwrap().color)
        .collect();
    assert_eq!(
        got,
        vec![
            Some(TermColor::LightBlue),
            Some(TermColor::Gray),
            Some(TermColor::Rgb(0, 255, 127)),
            Some(TermColor::Indexed(200)),
            Some(TermColor::Red),
        ]
    );
}
