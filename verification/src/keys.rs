use vstd::prelude::*;

use crate::app::{after_resume_follow, after_scroll_down, after_scroll_to_top, after_scroll_up, cursor_max, opened_detail, App};
use crate::detail::{bottom_view, page_of, scrolled_down_view, scrolled_up_view, top_view, DetailView};

verus! {

/// A key press, as far as the viewer tells keys apart.
#[derive(Clone, Copy, PartialEq, Eq, Structural, Debug)]
pub enum Key {
    Char(char),
    Enter,
    Esc,
    Up,
    Down,
    PageUp,
    PageDown,
    Home,
    End,
    /// Any key the viewer does not use.
    Other,
}

/// Rows in a page of the log view (at least one).
pub open spec fn main_page(a: App) -> nat {
    if a.viewport_h > 0 { a.viewport_h as nat } else { 1 }
}

/// What a key does to an open detail view: `None` closes it.
pub open spec fn detail_key(v: DetailView, key: Key) -> Option<DetailView> {
    match key {
        Key::Esc | Key::Enter | Key::Char('q') => None,
        Key::Up | Key::Char('k') => Some(scrolled_up_view(v, 1)),
        Key::Down | Key::Char('j') => Some(scrolled_down_view(v, 1)),
        Key::PageUp => Some(scrolled_up_view(v, page_of(v))),
        Key::PageDown => Some(scrolled_down_view(v, page_of(v))),
        Key::Home | Key::Char('g') => Some(top_view(v)),
        Key::End | Key::Char('G') => Some(bottom_view(v)),
        _ => Some(v),
    }
}

/// `f` is `o` after the key press `key` (with Ctrl held when `ctrl`).
/// Ctrl-C quits from anywhere; while a detail view is open, keys act on it;
/// otherwise they move through the log, and `r` switches between formatted lines
/// and raw JSON.
pub open spec fn key_handled(o: App, f: App, key: Key, ctrl: bool) -> bool {
    if ctrl && key == Key::Char('c') {
        f == App { quit: true, ..o }
    } else {
        match o.detail {
            Some(d) => match detail_key(d@, key) {
                None => f == App { detail: None, ..o },
                Some(v) => f.detail matches Some(d2) && d2@ == v && f == App { detail: f.detail, ..o },
            },
            None => match key {
                Key::Char('q') | Key::Esc => f == App { quit: true, ..o },
                Key::Enter => opened_detail(o, f),
                Key::Up | Key::Char('k') => f == after_scroll_up(o, 1),
                Key::Down | Key::Char('j') => f == after_scroll_down(o, 1),
                Key::PageUp => f == after_scroll_up(o, main_page(o)),
                Key::PageDown => f == after_scroll_down(o, main_page(o)),
                Key::Home | Key::Char('g') => f == after_scroll_to_top(o),
                Key::End | Key::Char('G') | Key::Char('f') => f == after_resume_follow(o),
                Key::Char('r') => f == App { raw_mode: !o.raw_mode, ..o },
                _ => f == o,
            },
        }
    }
}

/// Applies one key press to the viewer state.
pub fn handle_key(app: &mut App, key: Key, ctrl: bool)
    requires
        old(app).dropped + old(app).lines@.len() <= u64::MAX,
        old(app).detail matches Some(d) ==> d@.scroll + page_of(d@) <= usize::MAX,
    ensures
        key_handled(*old(app), *final(app), key, ctrl),
{
    let ctrl_c = match key {
        Key::Char(c) => c == 'c',
        _ => false,
    };
    if ctrl && ctrl_c {
        app.quit = true;
        return;
    }
    if app.detail.is_some() {
        let taken = app.detail.take();
        let mut d = match taken {
            Some(d) => d,
            None => { return; },
        };
        let page = d.page();
        let close = match key {
            Key::Esc | Key::Enter => true,
            Key::Char(c) => c == 'q',
            _ => false,
        };
        if close {
            return;
        }
        match key {
            Key::Up => d.scroll_up(1),
            Key::Down => d.scroll_down(1),
            Key::PageUp => d.scroll_up(page),
            Key::PageDown => d.scroll_down(page),
            Key::Home => d.jump_to_top(),
            Key::End => d.jump_to_bottom(),
            Key::Char(c) => {
                if c == 'k' {
                    d.scroll_up(1);
                } else if c == 'j' {
                    d.scroll_down(1);
                } else if c == 'g' {
                    d.jump_to_top();
                } else if c == 'G' {
                    d.jump_to_bottom();
                }
            },
            _ => {},
        }
        app.detail = Some(d);
        return;
    }
    let page = if app.viewport_h > 0 { app.viewport_h } else { 1 };
    match key {
        Key::Esc => app.quit = true,
        Key::Enter => app.open_detail(),
        Key::Up => app.scroll_up(1),
        Key::Down => app.scroll_down(1),
        Key::PageUp => app.scroll_up(page),
        Key::PageDown => app.scroll_down(page),
        Key::Home => app.scroll_to_top(),
        Key::End => app.resume_follow(),
        Key::Char(c) => {
            if c == 'q' {
                app.quit = true;
            } else if c == 'k' {
                app.scroll_up(1);
            } else if c == 'j' {
                app.scroll_down(1);
            } else if c == 'g' {
                app.scroll_to_top();
            } else if c == 'G' || c == 'f' {
                app.resume_follow();
            } else if c == 'r' {
                app.raw_mode = !app.raw_mode;
            }
        },
        Key::Other => {},
    }
}

/// Keys only move the view and open or close the detail view: the buffered lines,
/// the count of evicted lines and the cap never change, and nothing but Ctrl-C,
/// `q` or Esc (outside a detail view) quits.
pub proof fn lemma_keys_keep_buffer(o: App, f: App, key: Key, ctrl: bool)
    requires
        key_handled(o, f, key, ctrl),
    ensures
        f.lines == o.lines,
        f.dropped == o.dropped,
        f.cap == o.cap,
        f.quit != o.quit ==> (ctrl && key == Key::Char('c')) || (o.detail is None && (key == Key::Char('q') || key == Key::Esc)),
{
}

/// In the log view PageUp moves the cursor one page up (towards older lines, stopping
/// at the oldest) and leaves follow mode; PageDown moves it one page down (stopping
/// at the newest) and follows again on reaching it. A page is the viewport height
/// (at least one row).
pub proof fn lemma_paging_moves_a_page(o: App, f: App, key: Key)
    requires
        key_handled(o, f, key, false),
        o.detail is None,
        o.lines@.len() <= usize::MAX,
    ensures
        key == Key::PageDown ==> f.cursor == (if o.cursor >= main_page(o) { o.cursor - main_page(o) } else { 0 })
            && f.follow == (o.follow || f.cursor == 0),
        key == Key::PageUp ==> !f.follow && f.cursor == (if o.cursor + main_page(o) <= cursor_max(o.lines@.len()) {
            o.cursor + main_page(o)
        } else {
            cursor_max(o.lines@.len()) as int
        }),
{
}

/// From the newest line, PageDown undoes PageUp: the cursor is back at the newest
/// line and the view follows again.
pub proof fn lemma_page_down_undoes_page_up(o: App, m: App, f: App)
    requires
        o.detail is None,
        o.cursor == 0,
        key_handled(o, m, Key::PageUp, false),
        key_handled(m, f, Key::PageDown, false),
    ensures
        f.cursor == 0,
        f.follow,
        f.lines == o.lines,
{
}

} // verus!
