//! The browser's state and its decisions: what a key press does, how a
//! request starts and how its outcome is taken in, and what the page shows.
//! The terminal, the network and the URL input box are driven from outside:
//! a key press answers with an `Action` for them.

use vstd::prelude::*;
use vstd::utf8::encode_utf8;
use crate::gemtext::{
    gemini_scheme, headings_ok, lemma_labels_distinct, lemma_parsed_headings,
    lemma_parsed_labels_distinct, lemma_parsed_link_labels, line_views, link_position,
    parse_response, response_ready, string_rows, Heading, LineType, LineView, Link, LinkView,
    Parser,
};
use crate::links::{clone_link, LinkTable};
use crate::request::{
    host_of, port_suffix, prepare_request, sanitize_url, sanitized, GeminiRequest, ReqErr,
};
use crate::text::{has_prefix, lines_of, push_char};

verus! {

/// What keys do: browse, follow a link by its label, or edit the URL.
#[derive(Debug, Clone, Copy, PartialEq, Eq, Structural)]
pub enum InputMode {
    Normal,
    Editing,
    Follow,
}

/// The page on display.
#[derive(Debug, Clone, Copy, PartialEq, Eq, Structural)]
pub enum Page {
    Title,
    Browse,
    Error(ReqErr),
}

/// The key of a key press, as far as the browser tells keys apart.
#[derive(Debug, Clone, Copy, PartialEq, Eq, Structural)]
pub enum KeyCode {
    Char(char),
    Esc,
    Enter,
    Other,
}

/// A key press: the key, and whether Control was held.
#[derive(Debug, Clone, Copy, PartialEq, Eq, Structural)]
pub struct Key {
    pub code: KeyCode,
    pub ctrl: bool,
}

/// What the caller is to do after a key press.
#[derive(Debug, Clone, Copy, PartialEq, Eq, Structural)]
pub enum Action {
    Nothing,
    ScrollDown,
    ScrollUp,
    ScrollToBottom,
    ScrollToTop,
    /// Hand the key press to the URL input box.
    EditInput,
    /// Make a request (`begin_request`, then the network, then
    /// `finish_request`).
    Request,
}

/// The browser's state as values.
pub struct BrowserView {
    pub page: Page,
    pub help: bool,
    pub exit: bool,
    pub mode: InputMode,
    pub content: Seq<LineView>,
    pub links: Map<Seq<char>, LinkView>,
    pub url: Seq<char>,
    pub f_chars: Seq<char>,
}

/// The lines of the page on display; every heading among them has a level
/// from 1 to 3.
struct Content {
    lines: Vec<LineType>,
}

impl Content {
    #[verifier::type_invariant]
    spec fn inv(self) -> bool {
        headings_ok(line_views(self.lines@))
    }

    closed spec fn view(&self) -> Seq<LineView> {
        line_views(self.lines@)
    }

    fn from_lines(lines: Vec<LineType>) -> (c: Self)
        requires
            headings_ok(line_views(lines@)),
        ensures
            c.view() == line_views(lines@),
    {
        Content { lines }
    }
}

/// The browser state.
pub struct Browser {
    current_page: Page,
    help_triggered: bool,
    exit: bool,
    input_mode: InputMode,
    page_content: Content,
    page_links: LinkTable,
    page_url: String,
    f_chars: String,
}

impl View for Browser {
    type V = BrowserView;

    closed spec fn view(&self) -> BrowserView {
        BrowserView {
            page: self.current_page,
            help: self.help_triggered,
            exit: self.exit,
            mode: self.input_mode,
            content: self.page_content.view(),
            links: self.page_links@,
            url: self.page_url@,
            f_chars: self.f_chars@,
        }
    }
}

/// What typing `c` in follow mode does: the label typed so far grows by
/// `c`; once it is two bytes long and names a link, the page URL becomes
/// that link (appended to the page URL when relative), the label is
/// cleared, and a request is due.
pub open spec fn follow_step(v: BrowserView, c: char) -> (BrowserView, Action) {
    let f = v.f_chars.push(c);
    if encode_utf8(f).len() == 2 && v.links.contains_key(f) {
        let l = v.links[f];
        (
            BrowserView {
                url: if l.is_relative {
                    v.url + l.link
                } else {
                    l.link
                },
                f_chars: seq![],
                ..v
            },
            Action::Request,
        )
    } else {
        (BrowserView { f_chars: f, ..v }, Action::Nothing)
    }
}

/// What a key press does to the browser, and what it asks of the caller.
/// Normal mode: Ctrl-c quits, `f` starts following links, `j`/`k` scroll
/// down/up, `G` to the bottom, `g` to the top, Ctrl-h toggles the help,
/// Ctrl-g starts editing the URL. Follow mode: Esc goes back, characters
/// spell a link label. Editing mode: Enter requests the URL, Esc stops
/// editing, any other key goes to the input box.
pub open spec fn key_step(v: BrowserView, key: Key) -> (BrowserView, Action) {
    match v.mode {
        InputMode::Normal => match key.code {
            KeyCode::Char(c) => if c == 'c' {
                if key.ctrl {
                    (BrowserView { exit: true, ..v }, Action::Nothing)
                } else {
                    (v, Action::Nothing)
                }
            } else if c == 'f' {
                (BrowserView { mode: InputMode::Follow, ..v }, Action::Nothing)
            } else if c == 'j' {
                (v, Action::ScrollDown)
            } else if c == 'k' {
                (v, Action::ScrollUp)
            } else if c == 'G' {
                (v, Action::ScrollToBottom)
            } else if c == 'h' {
                if key.ctrl {
                    (BrowserView { help: !v.help, ..v }, Action::Nothing)
                } else {
                    (v, Action::Nothing)
                }
            } else if c == 'g' {
                if key.ctrl {
                    (BrowserView { mode: InputMode::Editing, ..v }, Action::Nothing)
                } else {
                    (v, Action::ScrollToTop)
                }
            } else {
                (v, Action::Nothing)
            },
            _ => (v, Action::Nothing),
        },
        InputMode::Follow => match key.code {
            KeyCode::Esc => (BrowserView { mode: InputMode::Normal, ..v }, Action::Nothing),
            KeyCode::Char(c) => follow_step(v, c),
            _ => (v, Action::Nothing),
        },
        InputMode::Editing => match key.code {
            KeyCode::Enter => (v, Action::Request),
            KeyCode::Esc => (BrowserView { mode: InputMode::Normal, ..v }, Action::Nothing),
            _ => (v, Action::EditInput),
        },
    }
}

impl Browser {
    /// A browser on the title page, in normal mode, with nothing loaded.
    pub fn new() -> (b: Self)
        ensures
            b@ == (BrowserView {
                page: Page::Title,
                help: false,
                exit: false,
                mode: InputMode::Normal,
                content: seq![],
                links: Map::empty(),
                url: seq![],
                f_chars: seq![],
            }),
    {
        let empty: Vec<LineType> = Vec::new();
        assert(line_views(empty@) =~= Seq::<LineView>::empty());
        let b = Browser {
            current_page: Page::Title,
            help_triggered: false,
            exit: false,
            input_mode: InputMode::Normal,
            page_content: Content::from_lines(empty),
            page_links: LinkTable::new(),
            page_url: String::new(),
            f_chars: String::new(),
        };
        b
    }

    fn exit(&mut self)
        ensures
            final(self)@ == (BrowserView { exit: true, ..old(self)@ }),
    {
        self.exit = true;
    }

    fn stop_editing(&mut self)
        ensures
            final(self)@ == (BrowserView { mode: InputMode::Normal, ..old(self)@ }),
    {
        self.input_mode = InputMode::Normal;
    }

    /// Handles a key press; see `key_step`.
    pub fn handle_key(&mut self, key: Key) -> (a: Action)
        ensures
            (final(self)@, a) == key_step(old(self)@, key),
    {
        match self.input_mode {
            InputMode::Normal => {
                match key.code {
                    KeyCode::Char(c) => {
                        if c == 'c' {
                            if key.ctrl {
                                self.exit();
                            }
                            Action::Nothing
                        } else if c == 'f' {
                            self.input_mode = InputMode::Follow;
                            Action::Nothing
                        } else if c == 'j' {
                            Action::ScrollDown
                        } else if c == 'k' {
                            Action::ScrollUp
                        } else if c == 'G' {
                            Action::ScrollToBottom
                        } else if c == 'h' {
                            if key.ctrl {
                                self.help_triggered = !self.help_triggered;
                            }
                            Action::Nothing
                        } else if c == 'g' {
                            if key.ctrl {
                                self.input_mode = InputMode::Editing;
                                Action::Nothing
                            } else {
                                Action::ScrollToTop
                            }
                        } else {
                            Action::Nothing
                        }
                    },
                    _ => Action::Nothing,
                }
            },
            InputMode::Follow => {
                match key.code {
                    KeyCode::Esc => {
                        self.input_mode = InputMode::Normal;
                        Action::Nothing
                    },
                    KeyCode::Char(a) => self.follow_char(a),
                    _ => Action::Nothing,
                }
            },
            InputMode::Editing => {
                match key.code {
                    KeyCode::Enter => Action::Request,
                    KeyCode::Esc => {
                        self.stop_editing();
                        Action::Nothing
                    },
                    _ => Action::EditInput,
                }
            },
        }
    }

    fn follow_char(&mut self, a: char) -> (r: Action)
        ensures
            (final(self)@, r) == follow_step(old(self)@, a),
    {
        let mut typed = self.f_chars.clone();
        push_char(&mut typed, a);
        self.f_chars = typed;
        if self.f_chars.as_str().as_bytes().len() == 2 {
            let found = match self.page_links.get(&self.f_chars) {
                Some(link) => Some((link.is_relative, link.link.clone())),
                None => None,
            };
            if let Some((is_relative, target)) = found {
                if is_relative {
                    self.page_url = self.page_url.clone().concat(target.as_str());
                } else {
                    self.page_url = target;
                }
                self.f_chars = String::new();
                return Action::Request;
            }
        }
        Action::Nothing
    }

    /// Whether a request takes its URL from the input box (it does unless a
    /// link is being followed).
    pub fn request_uses_input(&self) -> (b: bool)
        ensures
            b == (self@.mode != InputMode::Follow),
    {
        self.input_mode != InputMode::Follow
    }

    /// Starts a request: the page URL becomes the followed link's URL (in
    /// follow mode) or what was typed, sanitized; editing stops, the links
    /// are cleared, and the request for that URL is prepared.
    pub fn begin_request(&mut self, typed: String) -> (r: Result<GeminiRequest, ReqErr>)
        ensures
            final(self)@ == (BrowserView {
                url: request_url(old(self)@, typed@),
                mode: InputMode::Normal,
                links: Map::empty(),
                ..old(self)@
            }),
            r is Ok,
            r matches Ok(req) ==> {
                &&& req.host@ == host_of(request_url(old(self)@, typed@))
                &&& req.address@ == host_of(request_url(old(self)@, typed@)) + port_suffix()
                &&& req.line@ == request_url(old(self)@, typed@) + seq!['\r', '\n']
            },
    {
        let url = if self.input_mode == InputMode::Follow {
            sanitize_url(self.page_url.clone())
        } else {
            sanitize_url(typed)
        };
        proof {
            lemma_sanitized_has_scheme(if old(self)@.mode == InputMode::Follow {
                old(self)@.url
            } else {
                typed@
            });
        }
        self.page_url = url;
        self.stop_editing();
        self.page_links.clear();
        prepare_request(self.page_url.as_str())
    }

    fn collect_links(&mut self)
        ensures
            final(self)@ == (BrowserView {
                links: collect_links(old(self)@.links, old(self)@.content),
                ..old(self)@
            }),
    {
        let n = self.page_content.lines.len();
        let ghost start = self@;
        for i in 0..n
            invariant
                n == start.content.len(),
                self@ == (BrowserView {
                    links: collect_links(start.links, start.content.take(i as int)),
                    ..start
                }),
        {
            let ghost pre = start.content.take(i + 1);
            assert(pre.drop_last() == start.content.take(i as int));
            assert(pre.last() == self.page_content.lines@[i as int]@);
            match &self.page_content.lines[i] {
                LineType::Link(link) => {
                    self.page_links.insert(clone_link(link));
                },
                _ => {},
            }
        }
        assert(start.content.take(n as int) == start.content);
    }

    /// Takes in the outcome of a request: a body is parsed and shown, its
    /// links are added by label; an error is shown as such.
    pub fn finish_request(&mut self, response: Result<String, ReqErr>)
        requires
            response matches Ok(body) ==> response_ready(body@),
        ensures
            match response {
                Ok(body) => final(self)@ == (BrowserView {
                    page: Page::Browse,
                    content: parse_response(body@),
                    links: collect_links(old(self)@.links, parse_response(body@)),
                    ..old(self)@
                }),
                Err(e) => final(self)@ == (BrowserView { page: Page::Error(e), ..old(self)@ }),
            },
    {
        match response {
            Ok(res) => {
                let mut parser = Parser::new(res.as_str());
                parser.parse_gemtext();
                let lines = parser.get_lines();
                proof {
                    lemma_parsed_headings(lines_of(res@).drop_first(), crate::gemtext::ParserState::Normal, 0);
                    assert(line_views(lines@) =~= parse_response(res@));
                }
                self.page_content = Content::from_lines(lines);
                self.collect_links();
                self.current_page = Page::Browse;
            },
            Err(err) => {
                self.current_page = Page::Error(err);
            },
        }
    }
}

/// The URL a request goes to: the followed link's URL in follow mode, else
/// what was typed; sanitized either way.
pub open spec fn request_url(v: BrowserView, typed: Seq<char>) -> Seq<char> {
    sanitized(
        if v.mode == InputMode::Follow {
            v.url
        } else {
            typed
        },
    )
}

/// The links of `content` added to `m` by label, from first to last.
pub open spec fn collect_links(m: Map<Seq<char>, LinkView>, content: Seq<LineView>) -> Map<
    Seq<char>,
    LinkView,
>
    decreases content.len(),
{
    if content.len() == 0 {
        m
    } else {
        let before = collect_links(m, content.drop_last());
        match content.last() {
            LineView::Link(l) => before.insert(l.f_char, l),
            _ => before,
        }
    }
}

/// A sanitized URL always starts with `gemini://` and ends with `/`; a URL
/// that has the scheme only gains the `/`.
pub proof fn lemma_sanitized_has_scheme(url: Seq<char>)
    ensures
        has_prefix(sanitized(url), gemini_scheme()),
        sanitized(url).last() == '/',
        has_prefix(url, gemini_scheme()) ==> sanitized(url) == url.push('/'),
{
    let with_scheme = if has_prefix(url, gemini_scheme()) {
        url
    } else {
        gemini_scheme() + url
    };
    assert(with_scheme.take(9) == gemini_scheme());
    assert(with_scheme.push('/').take(9) == with_scheme.take(9));
}

/// How a piece of displayed text is styled.
#[derive(Debug, Clone, Copy, PartialEq, Eq, Structural)]
pub enum TextStyle {
    Heading1,
    Heading2,
    Heading3,
    LinkPrefix,
    LinkText,
    FollowHint,
    List,
    Quote,
    Text,
    Plain,
}

/// A piece of displayed text with its style.
pub struct StyledText {
    pub text: String,
    pub style: TextStyle,
}

/// One displayed line, made of styled pieces.
pub struct TextLine {
    pub spans: Vec<StyledText>,
}

/// A displayed line as characters and styles.
pub open spec fn text_line_view(l: TextLine) -> Seq<(Seq<char>, TextStyle)> {
    l.spans@.map_values(|s: StyledText| (s.text@, s.style))
}

/// The views of a sequence of displayed lines.
pub open spec fn text_lines_view(v: Seq<TextLine>) -> Seq<Seq<(Seq<char>, TextStyle)>> {
    v.map_values(|l: TextLine| text_line_view(l))
}

/// The style of a heading of the given level.
pub open spec fn heading_style(level: u8) -> TextStyle {
    if level == 1 {
        TextStyle::Heading1
    } else if level == 2 {
        TextStyle::Heading2
    } else {
        TextStyle::Heading3
    }
}

/// A link as displayed: `=> `, then its alternative text (or its URL when
/// it has none), then, while following links, a space and its label.
pub open spec fn link_spans(l: LinkView, follow: bool) -> Seq<(Seq<char>, TextStyle)> {
    let shown = match l.alt {
        Some(a) => a,
        None => l.link,
    };
    let base = seq![(seq!['=', '>', ' '], TextStyle::LinkPrefix), (shown, TextStyle::LinkText)];
    if follow {
        base.push((seq![' '] + l.f_char, TextStyle::FollowHint))
    } else {
        base
    }
}

/// The displayed lines of one parsed line: one line each, except a
/// preformatted block, which shows each of its lines unstyled.
pub open spec fn display_line(l: LineView, follow: bool) -> Seq<Seq<(Seq<char>, TextStyle)>> {
    match l {
        LineView::Heading(h) => seq![seq![(h.title, heading_style(h.level))]],
        LineView::Link(k) => seq![link_spans(k, follow)],
        LineView::List(s) => seq![seq![(s, TextStyle::List)]],
        LineView::Quote(s) => seq![seq![(s, TextStyle::Quote)]],
        LineView::Preformat(v) => v.map_values(|s: Seq<char>| seq![(s, TextStyle::Plain)]),
        LineView::Text(s) => seq![seq![(s, TextStyle::Text)]],
    }
}

/// The displayed lines of a page, in order.
pub open spec fn display_of(content: Seq<LineView>, follow: bool) -> Seq<
    Seq<(Seq<char>, TextStyle)>,
>
    decreases content.len(),
{
    if content.len() == 0 {
        seq![]
    } else {
        display_of(content.drop_last(), follow) + display_line(content.last(), follow)
    }
}

fn styled(text: String, style: TextStyle) -> (r: TextLine)
    ensures
        text_line_view(r) == seq![(text@, style)],
{
    let ghost t = text@;
    let spans = vec![StyledText { text, style }];
    let r = TextLine { spans };
    assert(text_line_view(r) =~= seq![(t, style)]);
    r
}

impl Browser {
    fn style_heading(&self, heading: &Heading) -> (r: TextLine)
        requires
            1 <= heading.level <= 3,
        ensures
            text_line_view(r) == seq![(heading@.title, heading_style(heading.level))],
    {
        let style = if heading.level == 1 {
            TextStyle::Heading1
        } else if heading.level == 2 {
            TextStyle::Heading2
        } else {
            TextStyle::Heading3
        };
        styled(heading.title.clone(), style)
    }

    fn style_link(&self, link: &Link) -> (r: TextLine)
        ensures
            text_line_view(r) == link_spans(link@, self@.mode == InputMode::Follow),
    {
        let mut spans: Vec<StyledText> = Vec::new();
        let mut pref = String::new();
        push_char(&mut pref, '=');
        push_char(&mut pref, '>');
        push_char(&mut pref, ' ');
        assert(pref@ =~= seq!['=', '>', ' ']);
        spans.push(StyledText { text: pref, style: TextStyle::LinkPrefix });
        let shown = match &link.alt {
            Some(alt) => alt.clone(),
            None => link.link.clone(),
        };
        assert(shown@ == match link@.alt {
            Some(a) => a,
            None => link@.link,
        });
        spans.push(StyledText { text: shown, style: TextStyle::LinkText });
        if self.input_mode == InputMode::Follow {
            let mut hint = String::new();
            push_char(&mut hint, ' ');
            hint.append(link.f_char.as_str());
            assert(hint@ =~= seq![' '] + link@.f_char);
            spans.push(StyledText { text: hint, style: TextStyle::FollowHint });
        }
        let r = TextLine { spans };
        assert(text_line_view(r) =~= link_spans(link@, self@.mode == InputMode::Follow));
        r
    }

    fn style_quote(&self, quote: String) -> (r: TextLine)
        ensures
            text_line_view(r) == seq![(quote@, TextStyle::Quote)],
    {
        styled(quote, TextStyle::Quote)
    }

    fn style_text(&self, text: String) -> (r: TextLine)
        ensures
            text_line_view(r) == seq![(text@, TextStyle::Text)],
    {
        styled(text, TextStyle::Text)
    }

    fn style_list(&self, list: String) -> (r: TextLine)
        ensures
            text_line_view(r) == seq![(list@, TextStyle::List)],
    {
        styled(list, TextStyle::List)
    }

    /// The displayed lines of the page.
    pub fn style_line_types(&self) -> (r: Vec<TextLine>)
        ensures
            text_lines_view(r@) == display_of(self@.content, self@.mode == InputMode::Follow),
    {
        proof {
            use_type_invariant(&self.page_content);
        }
        let ghost content = self@.content;
        let ghost follow = self@.mode == InputMode::Follow;
        let mut lines: Vec<TextLine> = Vec::new();
        let n = self.page_content.lines.len();
        for i in 0..n
            invariant
                n == content.len(),
                content == self@.content,
                follow == (self@.mode == InputMode::Follow),
                headings_ok(content),
                text_lines_view(lines@) == display_of(content.take(i as int), follow),
        {
            let ghost pre = content.take(i + 1);
            assert(pre.drop_last() == content.take(i as int));
            assert(pre.last() == content[i as int]);
            let ghost before = text_lines_view(lines@);
            match &self.page_content.lines[i] {
                LineType::Heading(heading) => {
                    assert(content[i as int] matches LineView::Heading(h) ==> 1 <= h.level <= 3);
                    lines.push(self.style_heading(heading));
                    assert(text_lines_view(lines@) =~= before + display_line(content[i as int], follow));
                },
                LineType::Link(link) => {
                    lines.push(self.style_link(link));
                    assert(text_lines_view(lines@) =~= before + display_line(content[i as int], follow));
                },
                LineType::List(list) => {
                    lines.push(self.style_list(list.clone()));
                    assert(text_lines_view(lines@) =~= before + display_line(content[i as int], follow));
                },
                LineType::Quote(quote) => {
                    lines.push(self.style_quote(quote.clone()));
                    assert(text_lines_view(lines@) =~= before + display_line(content[i as int], follow));
                },
                LineType::Preformat(preformated) => {
                    let m = preformated.len();
                    for j in 0..m
                        invariant
                            m == preformated@.len(),
                            text_lines_view(lines@) == before + string_rows(preformated@).take(
                                j as int,
                            ).map_values(|s: Seq<char>| seq![(s, TextStyle::Plain)]),
                    {
                        let ghost prev = text_lines_view(lines@);
                        lines.push(styled(preformated[j].clone(), TextStyle::Plain));
                        assert(string_rows(preformated@).take(j + 1).map_values(
                            |s: Seq<char>| seq![(s, TextStyle::Plain)],
                        ) =~= string_rows(preformated@).take(j as int).map_values(
                            |s: Seq<char>| seq![(s, TextStyle::Plain)],
                        ).push(seq![(preformated@[j as int]@, TextStyle::Plain)]));
                        assert(text_lines_view(lines@) =~= prev.push(
                            seq![(preformated@[j as int]@, TextStyle::Plain)],
                        ));
                    }
                    assert(string_rows(preformated@).take(m as int) == string_rows(preformated@));
                },
                LineType::Text(text) => {
                    lines.push(self.style_text(text.clone()));
                    assert(text_lines_view(lines@) =~= before + display_line(content[i as int], follow));
                },
            }
        }
        assert(content.take(n as int) == content);
        lines
    }
}

/// The message shown for a failed request (never asked for a malformed
/// URL, which the browser does not make).
pub open spec fn error_message(err: ReqErr, url: Seq<char>) -> Seq<char> {
    match err {
        ReqErr::SslConnection => "Could not create an ssl connection to host"@,
        ReqErr::HostConnection => "Could not establish connection to host. Are you sure the url:"@
            + url + " is valid?"@,
        ReqErr::Read => "Could not read contents to a buffer. Buy more ram lol"@,
        ReqErr::Write => "Could not write to the host. Might be a connection error somewhere."@,
        ReqErr::MalformedUrl => seq![],
    }
}

impl Browser {
    /// The message for a failed request on the error page.
    pub fn error_text(&self, err: ReqErr) -> (r: String)
        requires
            err != ReqErr::MalformedUrl,
        ensures
            r@ == error_message(err, self@.url),
    {
        match err {
            ReqErr::SslConnection => String::from_str("Could not create an ssl connection to host"),
            ReqErr::HostConnection => {
                let s = String::from_str(
                    "Could not establish connection to host. Are you sure the url:",
                );
                let s = s.concat(self.page_url.as_str());
                s.concat(" is valid?")
            },
            ReqErr::Read => String::from_str("Could not read contents to a buffer. Buy more ram lol"),
            ReqErr::Write => String::from_str(
                "Could not write to the host. Might be a connection error somewhere.",
            ),
            ReqErr::MalformedUrl => String::new(),
        }
    }

    /// The page on display.
    pub fn current_page(&self) -> (p: Page)
        ensures
            p == self@.page,
    {
        self.current_page
    }

    /// Whether the help is shown.
    pub fn help_triggered(&self) -> (b: bool)
        ensures
            b == self@.help,
    {
        self.help_triggered
    }

    /// Whether the browser is to quit.
    pub fn should_exit(&self) -> (b: bool)
        ensures
            b == self@.exit,
    {
        self.exit
    }

    /// The current input mode.
    pub fn input_mode(&self) -> (m: InputMode)
        ensures
            m == self@.mode,
    {
        self.input_mode
    }

    /// The URL of the page on display.
    pub fn page_url(&self) -> (u: &String)
        ensures
            u@ == self@.url,
    {
        &self.page_url
    }
}

proof fn lemma_collect_finds(m: Map<Seq<char>, LinkView>, content: Seq<LineView>, i: int)
    requires
        0 <= i < content.len(),
        content[i] is Link,
        forall|j: int|
            i < j < content.len() && (#[trigger] content[j]) is Link ==> content[j]->Link_0.f_char
                != content[i]->Link_0.f_char,
    ensures
        collect_links(m, content).contains_key(content[i]->Link_0.f_char),
        collect_links(m, content)[content[i]->Link_0.f_char] == content[i]->Link_0,
    decreases content.len(),
{
    let last = content.last();
    if i < content.len() - 1 {
        assert forall|j: int|
            i < j < content.drop_last().len() && (#[trigger] content.drop_last()[j]) is Link implies content.drop_last()[j]->Link_0.f_char
            != content.drop_last()[i]->Link_0.f_char by {
            assert(content.drop_last()[j] == content[j]);
        }
        lemma_collect_finds(m, content.drop_last(), i);
        assert(content.drop_last()[i] == content[i]);
        if last is Link {
            assert(content[content.len() - 1] == last);
        }
    }
}

/// A key press of the character `c`, without Control.
pub open spec fn plain_key(c: char) -> Key {
    Key { code: KeyCode::Char(c), ctrl: false }
}

/// Following a link by its label. On a page just loaded from an accepted
/// body (its links collected into an empty table), in normal mode with no
/// label typed, pressing `f` and then the two letters shown next to any
/// link asks for a request, and the page URL becomes that link's URL
/// (appended to the page URL when the link is relative).
pub proof fn lemma_follow_link(v: BrowserView, body: Seq<char>, i: int)
    requires
        response_ready(body),
        v.content == parse_response(body),
        v.links == collect_links(Map::empty(), v.content),
        v.mode == InputMode::Normal,
        v.f_chars == Seq::<char>::empty(),
        0 <= i < v.content.len(),
        v.content[i] is Link,
    ensures
        ({
            let l = v.content[i]->Link_0;
            let s1 = key_step(v, plain_key('f'));
            let s2 = key_step(s1.0, plain_key(l.f_char[0]));
            let s3 = key_step(s2.0, plain_key(l.f_char[1]));
            &&& s1.1 == Action::Nothing
            &&& s2.1 == Action::Nothing
            &&& s3.1 == Action::Request
            &&& s3.0 == (BrowserView {
                mode: InputMode::Follow,
                url: if l.is_relative {
                    v.url + l.link
                } else {
                    l.link
                },
                f_chars: seq![],
                ..v
            })
        }),
{
    let lines = lines_of(body).drop_first();
    let out = v.content;
    let l = out[i]->Link_0;
    lemma_parsed_link_labels(lines, crate::gemtext::ParserState::Normal, 0);
    assert(out[i] matches LineView::Link(k) ==> k.f_char == crate::gemtext::f_char_label(
        link_position(out, i),
    ));
    lemma_labels_distinct(link_position(out, i), link_position(out, i));
    assert forall|j: int| i < j < out.len() && (#[trigger] out[j]) is Link implies out[j]->Link_0.f_char
        != out[i]->Link_0.f_char by {
        lemma_parsed_labels_distinct(lines, crate::gemtext::ParserState::Normal, i, j);
    }
    lemma_collect_finds(Map::empty(), out, i);
    let c0 = l.f_char[0];
    let c1 = l.f_char[1];
    let f1 = Seq::<char>::empty().push(c0);
    let f2 = f1.push(c1);
    assert(f2 =~= l.f_char);
    assert(encode_utf8(f1).len() == 1) by {
        reveal_with_fuel(encode_utf8, 2);
        assert(f1.drop_first() =~= Seq::<char>::empty());
    }
    assert(encode_utf8(f2).len() == 2) by {
        reveal_with_fuel(encode_utf8, 3);
        assert(f2.drop_first() =~= seq![c1]);
        assert(f2.drop_first().drop_first() =~= Seq::<char>::empty());
    }
}

/// Toggling the help twice in normal mode changes nothing.
pub proof fn lemma_help_toggle_twice(v: BrowserView)
    requires
        v.mode == InputMode::Normal,
    ensures
        ({
            let ctrl_h = Key { code: KeyCode::Char('h'), ctrl: true };
            let s1 = key_step(v, ctrl_h);
            let s2 = key_step(s1.0, ctrl_h);
            &&& s1.0.help == !v.help
            &&& s2.0 == v
        }),
{
}

/// Starting to follow links and pressing Esc, or starting to edit the URL
/// and pressing Esc, leaves the browser as it was.
pub proof fn lemma_escape_undoes(v: BrowserView)
    requires
        v.mode == InputMode::Normal,
    ensures
        key_step(key_step(v, plain_key('f')).0, Key { code: KeyCode::Esc, ctrl: false }).0 == v,
        key_step(key_step(v, Key { code: KeyCode::Char('g'), ctrl: true }).0, Key {
            code: KeyCode::Esc,
            ctrl: false,
        }).0 == v,
{
}

/// While the URL is being edited, every key press other than Enter and Esc
/// goes to the input box (Backspace, Delete and the arrows included) and
/// changes nothing else.
pub proof fn lemma_editing_keys(v: BrowserView, key: Key)
    requires
        v.mode == InputMode::Editing,
        key.code != KeyCode::Enter,
        key.code != KeyCode::Esc,
    ensures
        key_step(v, key) == (v, Action::EditInput),
{
}

/// A displayed link is the prefix `=> `, then its alternative text if it has
/// one and its URL otherwise, then (only while following links) a space and
/// its label.
pub proof fn lemma_link_display(l: LinkView, follow: bool)
    ensures
        link_spans(l, follow).len() == if follow {
            3int
        } else {
            2int
        },
        link_spans(l, follow)[0] == (seq!['=', '>', ' '], TextStyle::LinkPrefix),
        link_spans(l, follow)[1].0 == (if l.alt is Some {
            l.alt->0
        } else {
            l.link
        }),
        l.alt is None ==> link_spans(l, follow)[1].0 == l.link,
        follow ==> link_spans(l, follow)[2].0 == seq![' '] + l.f_char,
{
}

} // verus!
