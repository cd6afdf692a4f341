use oxtail::app::LogLine;
use oxtail::format::{lookup, Template};
use oxtail::json::Json;
use oxtail::piece::Tone;

fn value(json: &str) -> Json {
    LogLine::parse(json.to_string()).json.unwrap()
}

fn render(template: &str, json: &str) -> String {
    let t = Template::parse(template).ok().unwrap();
    t.render_spans(&value(json)).iter().map(|p| p.text.as_str()).collect()
}

fn parse_err(template: &str) -> String {
    match Template::parse(template) {
        Ok(_) => panic!("template accepted"),
        Err(e) => e,
    }
}

#[test]
fn renders_fields_and_literals() {
    let out = render(
        "{created_at} push {repo.name} by {actor.login}",
        r#"{"created_at":"2015-01-01","repo":{"name":"a/b"},"actor":{"login":"ann"}}"#,
    );
    assert_eq!(out, "2015-01-01 push a/b by ann");
}

#[test]
fn missing_field_renders_dash() {
    assert_eq!(render("x {nope.deep} y", r#"{"a":1}"#), "x - y");
}

#[test]
fn array_index_paths() {
    assert_eq!(render("{commits.0.sha}", r#"{"commits":[{"sha":"abc"}]}"#), "abc");
}

#[test]
fn escaped_braces() {
    assert_eq!(render("a {{literal}} {n}", r#"{"n":5}"#), "a {literal} 5");
}

#[test]
fn parse_errors() {
    assert!(Template::parse("{unclosed").is_err());
    assert!(Template::parse("{}").is_err());
    assert!(Template::parse("stray } brace").is_err());
}

#[test]
fn control_chars_in_values_are_sanitized() {
    assert_eq!(render("{msg}", r#"{"msg":"a\nb"}"#), "a b");
}

#[test]
fn parse_error_messages() {
    assert_eq!(parse_err("x {unclosed"), "unclosed '{' in template (started before end: \"{unclosed\")");
    assert_eq!(parse_err("{}"), "empty {} placeholder in template");
    assert_eq!(parse_err("stray } brace"), "unmatched '}' in template (use \"}}\" for a literal brace)");
}

#[test]
fn null_and_scalars_display() {
    assert_eq!(render("{a}|{b}|{c}|{d}", r#"{"a":null,"b":true,"c":-1.5,"d":"x"}"#), "-|true|-1.5|x");
}

#[test]
fn containers_render_as_clipped_compact_json() {
    assert_eq!(render("{o}", r#"{"o":{"k":[1,"two"]}}"#), r#"{"k":[1,"two"]}"#);
    let long: String = format!(r#"{{"o":["{}"]}}"#, "y".repeat(200));
    let out = render("{o}", &long);
    assert_eq!(out.chars().count(), 121);
    assert!(out.starts_with("[\"yyy"));
    assert!(out.ends_with('…'));
}

#[test]
fn literal_and_field_tones() {
    let t = Template::parse("at {t}").ok().unwrap();
    let pieces = t.render_spans(&value(r#"{"t":1}"#));
    assert_eq!(pieces[0].tone, Tone::Dim);
    assert_eq!(pieces[1].tone, Tone::Value);
    let pieces = t.render_spans(&value(r#"{}"#));
    assert_eq!(pieces[1].tone, Tone::Dim);
    assert_eq!(pieces[1].text, "-");
}

#[test]
fn lookup_walks_objects_and_indices() {
    let v = value(r#"{"a":{"b":[10,{"c":"deep"}]}}"#);
    assert!(matches!(lookup(&v, "a.b.1.c"), Some(Json::Str(s)) if s == "deep"));
    assert!(lookup(&v, "a.b.2").is_none());
    assert!(lookup(&v, "a.b.x").is_none());
    assert!(lookup(&v, "a.b.0.c").is_none());
    assert!(matches!(lookup(&v, "a.b.+1"), Some(Json::Object(_))));
}

#[test]
fn doubled_braces_only_template() {
    assert_eq!(render("{{}}", "{}"), "{}");
    assert_eq!(render("", "{}"), "");
}
