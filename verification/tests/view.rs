use oxtail::app::{App, LogLine};
use oxtail::keys::{handle_key, Key};
use oxtail::piece::{Piece, Tone};
use oxtail::reader::{at_end, pace, AtEnd, Feed, Pace};
use oxtail::config::{RawConfig, RawFormat, RuleSet, TermColor};
use oxtail::format::Template;
use oxtail::ui::{render_line, render_text, status_line, window, LINE_CHAR_BUDGET};

fn record(json: &str) -> LogLine {
    let l = LogLine::parse(json.to_string());
    assert!(l.json.is_some());
    l
}

fn plain(line: &LogLine) -> Vec<Piece> {
    render_line(line, &RuleSet::new(), false).pieces
}

fn text(pieces: &[Piece]) -> String {
    pieces.iter().map(|p| p.text.as_str()).collect()
}

fn app_with(n: usize, viewport: usize) -> App {
    let mut app = App::new(100, "demo.ndjson".into());
    app.viewport_h = viewport;
    for i in 0..n {
        app.push(format!("line {i}"));
    }
    app
}

#[test]
fn json_line_renders_compact_and_colored() {
    let pieces = plain(&record(r#"{"b":[1,null],"a":"x\ty","c":false}"#));
    assert_eq!(text(&pieces), r#"{a:"x\ty",b:[1,null],c:false}"#);
    let tones: Vec<Tone> = pieces.iter().map(|p| p.tone).collect();
    assert_eq!(tones[0], Tone::Dim);
    assert_eq!(tones[1], Tone::Key);
    assert_eq!(tones[3], Tone::Str);
    assert!(tones.contains(&Tone::Num) && tones.contains(&Tone::Bool));
}

#[test]
fn text_line_renders_raw() {
    let pieces = plain(&LogLine { raw: "plain {".into(), json: None });
    assert_eq!(pieces.len(), 1);
    assert_eq!(pieces[0].text, "plain {");
    assert_eq!(pieces[0].tone, Tone::Plain);
}

#[test]
fn long_line_is_cut_at_the_budget() {
    let long = "z".repeat(3000);
    let pieces = plain(&record(&format!(r#"{{"k":"{long}","m":1}}"#)));
    assert_eq!(text(&pieces), "{k:…");
    let shown: usize = pieces.iter().filter(|p| p.text != "…").map(|p| p.text.chars().count()).sum();
    assert!(shown <= LINE_CHAR_BUDGET);
}

#[test]
fn budget_spent_on_last_member_still_closes_with_mark() {
    let s = "z".repeat(LINE_CHAR_BUDGET - 6);
    let pieces = plain(&record(&format!(r#"["{s}"]"#)));
    assert_eq!(pieces.len(), 3);
    assert_eq!(pieces[1].text.chars().count(), LINE_CHAR_BUDGET - 4);
    assert_eq!(pieces[2].text, "]");
    let s = "z".repeat(LINE_CHAR_BUDGET - 3);
    let pieces = plain(&record(&format!(r#"["{s}"]"#)));
    assert_eq!(text(&pieces), "[……");
}

#[test]
fn window_while_following_and_browsing() {
    let mut app = app_with(30, 10);
    let w = window(&app, 10);
    assert_eq!((w.start, w.end, w.highlight), (20, 30, None));
    app.scroll_up(15);
    let w = window(&app, 10);
    assert_eq!((w.start, w.end, w.highlight), (14, 24, Some(14)));
    let small = app_with(3, 10);
    let w = window(&small, 10);
    assert_eq!((w.start, w.end), (0, 3));
}

#[test]
fn status_line_parts() {
    let mut app = App::new(2, "demo.ndjson".into());
    for i in 0..5 {
        app.push(format!("line {i}"));
    }
    app.ended = true;
    let pieces = status_line(&app, 0, 2);
    assert_eq!(pieces[0].text, " FOLLOW ");
    assert_eq!(pieces[0].tone, Tone::Follow);
    assert_eq!(pieces[1].text, " demo.ndjson | 1-2 of 2 lines");
    assert_eq!(pieces[2].text, " (+3 scrolled off)");
    assert_eq!(pieces[3].text, " | stream ended");
    assert_eq!(pieces[3].tone, Tone::Alert);
    assert_eq!(pieces[4].text, "  q quit  ↑/↓ move  ⏎ expand  f follow  g/G top/bottom");
    assert_eq!(pieces.len(), 5);
    app.scroll_up(1);
    let pieces = status_line(&app, 0, 2);
    assert_eq!(pieces[0].text, " BROWSE ");
}

#[test]
fn status_line_of_a_fresh_stream() {
    let app = App::new(10, "stdin".into());
    let pieces = status_line(&app, 0, 0);
    assert_eq!(text(&pieces), " FOLLOW  stdin | 1-0 of 0 lines  q quit  ↑/↓ move  ⏎ expand  f follow  g/G top/bottom");
}

#[test]
fn replay_pacing() {
    assert_eq!(pace(50), Pace { batch: 1, delay_ms: 20 });
    assert_eq!(pace(0), Pace { batch: 1, delay_ms: 1000 });
    assert_eq!(pace(100), Pace { batch: 1, delay_ms: 10 });
    assert_eq!(pace(101), Pace { batch: 1, delay_ms: 10 });
    assert_eq!(pace(250), Pace { batch: 2, delay_ms: 10 });
    assert_eq!(pace(3), Pace { batch: 1, delay_ms: 333 });
}

#[test]
fn feed_strips_bom_on_first_line_only() {
    let mut feed = Feed::new(None);
    assert_eq!(feed.line("\u{feff}{\"a\":1}\r\n"), "{\"a\":1}");
    assert_eq!(feed.line("\u{feff}x\n"), "\u{feff}x");
    assert_eq!(feed.line("y\r\n\r\n"), "y");
    assert_eq!(feed.line("\n"), "");
    assert_eq!(feed.sent(), None);
}

#[test]
fn feed_sleeps_after_each_batch() {
    let mut feed = Feed::new(Some(250));
    assert_eq!(feed.sent(), None);
    assert_eq!(feed.sent(), Some(10));
    assert_eq!(feed.sent(), None);
    assert_eq!(feed.sent(), Some(10));
    let mut slow = Feed::new(Some(4));
    assert_eq!(slow.sent(), Some(250));
    assert_eq!(slow.sent(), Some(250));
}

#[test]
fn end_of_input() {
    assert_eq!(at_end(true, false), AtEnd::Poll { delay_ms: 200 });
    assert_eq!(at_end(true, true), AtEnd::Stop);
    assert_eq!(at_end(false, false), AtEnd::Stop);
}

#[test]
fn rules_format_records_unless_raw_is_asked() {
    let rules = RuleSet::from_template(Template::parse("{type}: {n}").ok().unwrap());
    let rec = record(r#"{"type":"T","n":3}"#);
    let r = render_line(&rec, &rules, false);
    assert_eq!(text(&r.pieces), "T: 3");
    assert_eq!(r.color, None);
    let raw = render_line(&rec, &rules, true);
    assert_eq!(text(&raw.pieces), r#"{n:3,type:"T"}"#);
    let txt = LogLine { raw: "not json".into(), json: None };
    assert_eq!(text(&render_line(&txt, &rules, false).pieces), "not json");
}

#[test]
fn rule_color_applies_to_field_values() {
    let raw = RawConfig { rule: vec![], fallback: Some(RawFormat { format: "{n}".into(), color: Some("red".into()) }) };
    let rules = RuleSet::compile(&raw).ok().unwrap();
    let r = render_line(&record(r#"{"n":1}"#), &rules, false);
    assert_eq!(r.color, Some(TermColor::Red));
    assert_eq!(r.pieces[0].tone, Tone::Value);
}

#[test]
fn headless_text() {
    let rules = RuleSet::from_template(Template::parse("<{a}>").ok().unwrap());
    assert_eq!(render_text(&record(r#"{"a":"x"}"#), &rules), "<x>");
    assert_eq!(render_text(&LogLine::parse("hello".into()), &rules), "hello");
    assert_eq!(render_text(&record(r#"{"a":1}"#), &RuleSet::new()), r#"{"a":1}"#);
}

#[test]
fn raw_toggle_and_config_reload() {
    let mut app = app_with(3, 5);
    handle_key(&mut app, Key::Char('r'), false);
    assert!(app.raw_mode);
    handle_key(&mut app, Key::Char('r'), false);
    assert!(!app.raw_mode);
    app.apply_config(Err("bad rules".into()));
    assert_eq!(app.config_error.as_deref(), Some("bad rules"));
    let rules = RuleSet::from_template(Template::parse("x").ok().unwrap());
    app.apply_config(Ok(rules));
    assert!(app.config_error.is_none());
    assert_eq!(render_text(&record(r#"{"a":1}"#), &app.rules), "x");
}
