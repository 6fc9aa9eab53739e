use aries::browser::{Action, Browser, InputMode, Key, KeyCode, Page, TextStyle};
use aries::request::ReqErr;

fn key(c: char) -> Key {
    Key { code: KeyCode::Char(c), ctrl: false }
}

fn ctrl(c: char) -> Key {
    Key { code: KeyCode::Char(c), ctrl: true }
}

fn esc() -> Key {
    Key { code: KeyCode::Esc, ctrl: false }
}

fn load(b: &mut Browser, typed: &str, body: &str) {
    let req = b.begin_request(typed.to_string()).ok().unwrap();
    assert_eq!(req.line, format!("{}\r\n", b.page_url()));
    b.finish_request(Ok(body.to_string()));
}

#[test]
fn new_browser() {
    let b = Browser::new();
    assert_eq!(b.current_page(), Page::Title);
    assert!(!b.help_triggered());
    assert!(!b.should_exit());
    assert_eq!(b.input_mode(), InputMode::Normal);
    assert_eq!(b.page_url(), "");
}

#[test]
fn normal_mode_keys() {
    let mut b = Browser::new();
    assert_eq!(b.handle_key(key('j')), Action::ScrollDown);
    assert_eq!(b.handle_key(key('k')), Action::ScrollUp);
    assert_eq!(b.handle_key(key('G')), Action::ScrollToBottom);
    assert_eq!(b.handle_key(key('g')), Action::ScrollToTop);
    assert_eq!(b.handle_key(key('c')), Action::Nothing);
    assert!(!b.should_exit());
    assert_eq!(b.handle_key(key('h')), Action::Nothing);
    assert!(!b.help_triggered());
    assert_eq!(b.handle_key(Key { code: KeyCode::Enter, ctrl: false }), Action::Nothing);
}

#[test]
fn ctrl_c_quits() {
    let mut b = Browser::new();
    assert_eq!(b.handle_key(ctrl('c')), Action::Nothing);
    assert!(b.should_exit());
}

#[test]
fn ctrl_h_toggles_help_twice() {
    let mut b = Browser::new();
    b.handle_key(ctrl('h'));
    assert!(b.help_triggered());
    b.handle_key(ctrl('h'));
    assert!(!b.help_triggered());
}

#[test]
fn editing_keys() {
    let mut b = Browser::new();
    b.handle_key(ctrl('g'));
    assert_eq!(b.input_mode(), InputMode::Editing);
    assert_eq!(b.handle_key(key('x')), Action::EditInput);
    assert_eq!(b.handle_key(ctrl('c')), Action::EditInput);
    assert!(!b.should_exit());
    assert_eq!(b.handle_key(Key { code: KeyCode::Enter, ctrl: false }), Action::Request);
    assert!(b.request_uses_input());
    b.handle_key(esc());
    assert_eq!(b.input_mode(), InputMode::Normal);
}

#[test]
fn typed_url_is_sanitized_and_loaded() {
    let mut b = Browser::new();
    b.handle_key(ctrl('g'));
    load(&mut b, "example.org", "20 text/gemini\n# Welcome\n=> docs Docs\n");
    assert_eq!(b.page_url(), "gemini://example.org/");
    assert_eq!(b.current_page(), Page::Browse);
    assert_eq!(b.input_mode(), InputMode::Normal);
    let lines = b.style_line_types();
    assert_eq!(lines.len(), 2);
    assert_eq!(lines[0].spans[0].text, "# Welcome");
    assert_eq!(lines[0].spans[0].style, TextStyle::Heading1);
    assert_eq!(lines[1].spans.len(), 2);
    assert_eq!(lines[1].spans[0].text, "=> ");
    assert_eq!(lines[1].spans[1].text, "Docs");
}

#[test]
fn follow_relative_link() {
    let mut b = Browser::new();
    load(&mut b, "example.org", "20 ok\n=> docs Docs\n=> gemini://other.net/ Other\n");
    assert_eq!(b.handle_key(key('f')), Action::Nothing);
    assert_eq!(b.input_mode(), InputMode::Follow);
    let lines = b.style_line_types();
    assert_eq!(lines[0].spans[2].text, " ab");
    assert_eq!(lines[1].spans[2].text, " ac");
    assert_eq!(lines[1].spans[2].style, TextStyle::FollowHint);
    assert_eq!(b.handle_key(key('a')), Action::Nothing);
    assert_eq!(b.handle_key(key('b')), Action::Request);
    assert_eq!(b.page_url(), "gemini://example.org/docs");
    assert!(!b.request_uses_input());
    let req = b.begin_request(String::from("ignored")).ok().unwrap();
    assert_eq!(b.page_url(), "gemini://example.org/docs/");
    assert_eq!(req.host, "example.org");
    assert_eq!(b.input_mode(), InputMode::Normal);
}

#[test]
fn follow_absolute_link() {
    let mut b = Browser::new();
    load(&mut b, "example.org", "20 ok\n=> docs Docs\n=> gemini://other.net/x Other\n");
    b.handle_key(key('f'));
    b.handle_key(key('a'));
    assert_eq!(b.handle_key(key('c')), Action::Request);
    assert_eq!(b.page_url(), "gemini://other.net/x");
}

#[test]
fn unknown_label_sticks() {
    let mut b = Browser::new();
    load(&mut b, "example.org", "20 ok\n=> docs Docs\n");
    b.handle_key(key('f'));
    assert_eq!(b.handle_key(key('z')), Action::Nothing);
    assert_eq!(b.handle_key(key('z')), Action::Nothing);
    // The typed label is kept (now three letters long), so even a valid label
    // no longer matches until the page changes.
    assert_eq!(b.handle_key(key('a')), Action::Nothing);
    assert_eq!(b.handle_key(key('b')), Action::Nothing);
    b.handle_key(esc());
    assert_eq!(b.input_mode(), InputMode::Normal);
}

#[test]
fn failed_request_shows_error() {
    let mut b = Browser::new();
    b.begin_request("nowhere".to_string()).ok().unwrap();
    b.finish_request(Err(ReqErr::HostConnection));
    assert_eq!(b.current_page(), Page::Error(ReqErr::HostConnection));
    assert_eq!(
        b.error_text(ReqErr::HostConnection),
        "Could not establish connection to host. Are you sure the url:gemini://nowhere/ is valid?"
    );
    assert_eq!(b.error_text(ReqErr::SslConnection), "Could not create an ssl connection to host");
    assert_eq!(b.error_text(ReqErr::Read), "Could not read contents to a buffer. Buy more ram lol");
    assert_eq!(
        b.error_text(ReqErr::Write),
        "Could not write to the host. Might be a connection error somewhere."
    );
}

#[test]
fn display_styles() {
    let mut b = Browser::new();
    load(&mut b, "x", "20 ok\n## Two\n### Three\n* item\n> quote\ntext\n```\npre\n```\n");
    let lines = b.style_line_types();
    let styles: Vec<TextStyle> = lines.iter().map(|l| l.spans[0].style).collect();
    assert_eq!(
        styles,
        vec![TextStyle::Heading2, TextStyle::Heading3, TextStyle::List, TextStyle::Quote, TextStyle::Text, TextStyle::Plain]
    );
}
