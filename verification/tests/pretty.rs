use oxtail::app::LogLine;
use oxtail::detail::{centered, pretty_lines, Area, Detail};
use oxtail::json::Json;
use oxtail::piece::{Piece, Tone};

fn value(json: &str) -> Json {
    LogLine::parse(json.to_string()).json.unwrap()
}

fn flatten(lines: &[Vec<Piece>]) -> Vec<String> {
    lines.iter().map(|l| l.iter().map(|p| p.text.as_str()).collect()).collect()
}

#[test]
fn pretty_prints_with_four_space_indent() {
    let text = flatten(&pretty_lines(&value(r#"{"a":[1,2],"b":"x","c":{}}"#)));
    assert_eq!(
        text,
        vec!["{", "    \"a\": [", "        1,", "        2", "    ],", "    \"b\": \"x\",", "    \"c\": {}", "}",]
    );
}

#[test]
fn escapes_control_characters() {
    let text = flatten(&pretty_lines(&value(r#"{"msg":"two\nlines"}"#)));
    assert_eq!(text[1], "    \"msg\": \"two\\nlines\"");
}

#[test]
fn scalar_record_is_one_line() {
    assert_eq!(flatten(&pretty_lines(&value("[]"))), vec!["[]"]);
    assert_eq!(flatten(&pretty_lines(&Json::Null)), vec!["null"]);
}

#[test]
fn pretty_tones() {
    let lines = pretty_lines(&value(r#"{"k":true}"#));
    let tones: Vec<Tone> = lines[1].iter().map(|p| p.tone).collect();
    assert_eq!(tones, vec![Tone::Plain, Tone::Key, Tone::Dim, Tone::Bool]);
}

#[test]
fn detail_of_text_and_json_lines() {
    let text = LogLine { raw: "hello".into(), json: None };
    let d = Detail::new(&text, 7);
    assert_eq!(d.title(), " line 7 · text ");
    assert_eq!(flatten(d.lines()), vec!["hello"]);
    let rec = LogLine { raw: "{}".into(), json: Some(value(r#"{"a":1}"#)) };
    let d = Detail::new(&rec, 12);
    assert_eq!(d.title(), " line 12 · json ");
    assert_eq!(flatten(d.lines()), vec!["{", "    \"a\": 1", "}"]);
}

#[test]
fn detail_scrolls_within_its_lines() {
    let rec = LogLine { raw: String::new(), json: Some(value(r#"[1,2,3,4,5,6,7,8]"#)) };
    let mut d = Detail::new(&rec, 1);
    assert_eq!(d.layout(4), (0, 4));
    assert_eq!(d.page(), 4);
    d.scroll_down(100);
    assert_eq!(d.layout(4), (6, 10));
    d.scroll_up(2);
    assert_eq!(d.layout(4), (4, 8));
    d.jump_to_top();
    assert_eq!(d.layout(4), (0, 4));
    d.jump_to_bottom();
    assert_eq!(d.layout(20), (0, 10));
}

#[test]
fn centered_area() {
    let a = centered(Area { x: 0, y: 0, width: 100, height: 40 }, 90, 85);
    assert_eq!(a, Area { x: 5, y: 3, width: 90, height: 34 });
    let b = centered(Area { x: 2, y: 1, width: 11, height: 3 }, 90, 85);
    assert_eq!(b, Area { x: 3, y: 1, width: 9, height: 2 });
}
