use oxtail::app::{App, LogLine};
use oxtail::keys::{handle_key, Key};

fn line(raw: &str) -> LogLine {
    LogLine::parse(raw.to_string())
}

fn push(app: &mut App, raw: String) {
    app.push(raw);
}

fn filled(n: usize) -> App {
    let mut app = App::new(100, "test".into());
    app.viewport_h = 10;
    for i in 0..n {
        push(&mut app, format!("line {i}"));
    }
    app
}

#[test]
fn object_line_is_json() {
    let l = line(r#"{"type":"PushEvent","id":1}"#);
    assert!(l.json.is_some());
}

#[test]
fn plain_text_is_not_json() {
    let l = line("plain old log line");
    assert!(l.json.is_none());
}

#[test]
fn bare_scalar_json_is_treated_as_text() {
    assert!(line("42").json.is_none());
    assert!(line(r#""hello""#).json.is_none());
}

#[test]
fn buffer_evicts_past_cap() {
    let mut app = App::new(3, "test".into());
    for i in 0..5 {
        push(&mut app, format!("line {i}"));
    }
    assert_eq!(app.lines.len(), 3);
    assert_eq!(app.dropped, 2);
    assert_eq!(app.lines[0].raw, "line 2");
}

#[test]
fn selection_stays_anchored_as_lines_arrive() {
    let mut app = filled(20);
    app.scroll_up(5);
    assert!(!app.follow);
    let before = app.selected().unwrap().raw.clone();
    push(&mut app, "newcomer".into());
    assert_eq!(app.selected().unwrap().raw, before);
}

#[test]
fn scrolling_to_bottom_resumes_follow() {
    let mut app = filled(20);
    app.scroll_up(3);
    app.scroll_down(3);
    assert!(app.follow);
}

#[test]
fn array_line_is_json() {
    assert!(line("[1,2]").json.is_some());
}

#[test]
fn following_keeps_cursor_on_newest() {
    let mut app = filled(20);
    push(&mut app, "latest".into());
    assert!(app.follow);
    assert_eq!(app.cursor, 0);
    assert_eq!(app.selected().unwrap().raw, "latest");
}

#[test]
fn every_line_is_kept_or_counted() {
    let mut app = App::new(4, "test".into());
    for i in 0..11 {
        push(&mut app, format!("line {i}"));
        assert!(app.lines.len() <= 4);
        assert_eq!(app.dropped + app.lines.len() as u64, i + 1);
        assert_eq!(app.lines[app.lines.len() - 1].raw, format!("line {i}"));
    }
}

#[test]
fn selection_of_evicted_oldest_line_moves_on() {
    let mut app = App::new(5, "test".into());
    app.viewport_h = 2;
    for i in 0..5 {
        push(&mut app, format!("line {i}"));
    }
    app.scroll_to_top();
    assert_eq!(app.selected().unwrap().raw, "line 0");
    push(&mut app, "line 5".into());
    assert_eq!(app.cursor, 4);
    assert_eq!(app.selected().unwrap().raw, "line 1");
}

#[test]
fn scroll_up_clamps_and_keeps_cursor_visible() {
    let mut app = filled(20);
    app.scroll_up(500);
    assert_eq!(app.cursor, 19);
    assert_eq!(app.scroll, 10);
    app.scroll_down(4);
    assert_eq!(app.cursor, 15);
    assert_eq!(app.scroll, 10);
    app.scroll_down(10);
    assert_eq!(app.cursor, 5);
    assert_eq!(app.scroll, 5);
    assert!(!app.follow);
}

#[test]
fn top_and_follow() {
    let mut app = filled(20);
    app.scroll_to_top();
    assert!(!app.follow);
    assert_eq!(app.cursor, 19);
    assert_eq!(app.selected().unwrap().raw, "line 0");
    app.resume_follow();
    assert!(app.follow);
    assert_eq!((app.cursor, app.scroll), (0, 0));
}

#[test]
fn scroll_up_on_empty_buffer() {
    let mut app = App::new(10, "test".into());
    app.scroll_up(3);
    assert_eq!((app.cursor, app.scroll), (0, 0));
    assert!(app.selected().is_none());
    app.open_detail();
    assert!(app.detail.is_none());
}

#[test]
fn open_detail_numbers_line_in_whole_stream() {
    let mut app = App::new(3, "test".into());
    for i in 0..5 {
        push(&mut app, format!("line {i}"));
    }
    app.scroll_up(1);
    app.open_detail();
    let d = app.detail.as_ref().unwrap();
    assert_eq!(d.title(), " line 4 · text ");
    assert_eq!(d.lines().len(), 1);
    assert_eq!(d.lines()[0][0].text, "line 3");
}

#[test]
fn keys_move_and_quit() {
    let mut app = filled(20);
    handle_key(&mut app, Key::Char('k'), false);
    assert_eq!(app.cursor, 1);
    assert!(!app.follow);
    handle_key(&mut app, Key::PageUp, false);
    assert_eq!(app.cursor, 11);
    handle_key(&mut app, Key::Char('g'), false);
    assert_eq!(app.cursor, 19);
    handle_key(&mut app, Key::Char('G'), false);
    assert!(app.follow);
    handle_key(&mut app, Key::Char('x'), false);
    assert!(!app.quit);
    handle_key(&mut app, Key::Char('c'), true);
    assert!(app.quit);
    assert_eq!(app.lines.len(), 20);
    assert_eq!(app.lines[19].raw, "line 19");
}

#[test]
fn keys_in_detail_view() {
    let mut app = App::new(10, "test".into());
    push(&mut app, r#"{"a":1,"b":2,"c":3,"d":4}"#.into());
    handle_key(&mut app, Key::Enter, false);
    assert!(app.detail.is_some());
    {
        let d = app.detail.as_mut().unwrap();
        assert_eq!(d.layout(2), (0, 2));
    }
    handle_key(&mut app, Key::Char('j'), false);
    handle_key(&mut app, Key::End, false);
    assert_eq!(app.detail.as_mut().unwrap().layout(2), (4, 6));
    handle_key(&mut app, Key::Char('q'), false);
    assert!(app.detail.is_none());
    assert!(!app.quit);
    handle_key(&mut app, Key::Char('q'), false);
    assert!(app.quit);
}
