//! The gemtext parser: a response body is split into lines, the status line
//! is skipped, and every other line is classified by its first bytes.

use vstd::prelude::*;
use vstd::utf8::encode_utf8;
use crate::text::{
    char_rows, has_prefix, join_spaced, join_spaced_from, lemma_join_nonempty,
    lemma_words_clean, lemma_words_nonempty, lemma_words_of_joined, lines_of, split_lines, split_whitespace, starts_with, str_chars,
    string_from_chars, words,
};

verus! {

/// A heading line, with its level (1 to 3, from the number of leading `#`).
#[derive(Debug)]
pub struct Heading {
    pub title: String,
    pub level: u8,
}

/// A link line. `f_char` is the two-letter label that follows the link.
#[derive(Debug, Clone)]
pub struct Link {
    pub alt: Option<String>,
    pub link: String,
    pub f_char: String,
    pub is_relative: bool,
}

/// One parsed line of a gemtext page.
#[derive(Debug)]
pub enum LineType {
    Text(String),
    Link(Link),
    Heading(Heading),
    List(String),
    Quote(String),
    Preformat(Vec<String>),
}

/// Whether the parser is inside a preformatted block.
#[derive(Debug, Clone, Copy, PartialEq, Eq, Structural)]
pub enum ParserState {
    Normal,
    Preformated,
}

/// A heading as characters.
pub struct HeadingView {
    pub title: Seq<char>,
    pub level: u8,
}

/// A link as characters.
pub struct LinkView {
    pub alt: Option<Seq<char>>,
    pub link: Seq<char>,
    pub f_char: Seq<char>,
    pub is_relative: bool,
}

/// A parsed line as characters.
pub enum LineView {
    Text(Seq<char>),
    Link(LinkView),
    Heading(HeadingView),
    List(Seq<char>),
    Quote(Seq<char>),
    Preformat(Seq<Seq<char>>),
}

impl View for Heading {
    type V = HeadingView;

    open spec fn view(&self) -> HeadingView {
        HeadingView { title: self.title@, level: self.level }
    }
}

impl View for Link {
    type V = LinkView;

    open spec fn view(&self) -> LinkView {
        LinkView {
            alt: match self.alt {
                Some(a) => Some(a@),
                None => None,
            },
            link: self.link@,
            f_char: self.f_char@,
            is_relative: self.is_relative,
        }
    }
}

/// The characters of each string in `v`.
pub open spec fn string_rows(v: Seq<String>) -> Seq<Seq<char>> {
    v.map_values(|s: String| s@)
}

impl View for LineType {
    type V = LineView;

    open spec fn view(&self) -> LineView {
        match self {
            LineType::Text(s) => LineView::Text(s@),
            LineType::Link(l) => LineView::Link(l@),
            LineType::Heading(h) => LineView::Heading(h@),
            LineType::List(s) => LineView::List(s@),
            LineType::Quote(s) => LineView::Quote(s@),
            LineType::Preformat(v) => LineView::Preformat(string_rows(v@)),
        }
    }
}

/// The views of a sequence of parsed lines.
pub open spec fn line_views(v: Seq<LineType>) -> Seq<LineView> {
    v.map_values(|l: LineType| l@)
}

/// The heading that a heading line makes: level 3 after `###`, 2 after
/// `##`, else 1; the title is the whole line.
pub open spec fn heading_of(line: Seq<char>) -> HeadingView {
    HeadingView {
        title: line,
        level: if has_prefix(line, seq!['#', '#', '#']) {
            3
        } else if has_prefix(line, seq!['#', '#']) {
            2
        } else {
            1
        },
    }
}

fn parse_heading_line(line: &str) -> (r: LineType)
    ensures
        r@ == LineView::Heading(heading_of(line@)),
{
    let cs = str_chars(line);
    let level: u8 = if starts_with(&cs, &vec!['#', '#', '#']) {
        3
    } else if starts_with(&cs, &vec!['#', '#']) {
        2
    } else {
        1
    };
    LineType::Heading(Heading { level, title: line.to_owned() })
}

fn parse_quote_line(line: &str) -> (r: LineType)
    ensures
        r@ == LineView::Quote(line@),
{
    LineType::Quote(line.to_owned())
}

fn parse_text_line(line: &str) -> (r: LineType)
    ensures
        r@ == LineView::Text(line@),
{
    LineType::Text(line.to_owned())
}

fn parse_list_line(line: &str) -> (r: LineType)
    ensures
        r@ == LineView::List(line@),
{
    LineType::List(line.to_owned())
}

/// The number of labels whose second letter comes before the `j`-th letter
/// after `'a'`: `0 + 1 + ... + j`.
pub open spec fn labels_before(j: nat) -> nat
    decreases j,
{
    if j == 0 {
        0
    } else {
        labels_before((j - 1) as nat) + j
    }
}

/// The `i`-th two-letter link label, counting from the labels whose second
/// letter is the `j`-th letter after `'b'`: labels run `ab, ac, bc, ad, bd,
/// cd, ...`, each pair of distinct letters once, ordered by its second
/// letter and then its first.
pub open spec fn label_from(i: nat, j: nat) -> Seq<char>
    decreases i,
{
    if i <= j {
        seq![(97 + i) as char, (98 + j) as char]
    } else {
        label_from((i - j - 1) as nat, j + 1)
    }
}

/// The label of the `i`-th link of a page.
pub open spec fn f_char_label(i: nat) -> Seq<char> {
    label_from(i, 0)
}

/// The number of distinct labels: every pair of the letters `a` to `y`.
pub const LABEL_COUNT: usize = 300;

proof fn lemma_labels_before_mono(j: nat, k: nat)
    requires
        j <= k,
    ensures
        labels_before(j) <= labels_before(k),
    decreases k,
{
    if j < k {
        lemma_labels_before_mono(j, (k - 1) as nat);
    }
}

/// The label of the `i`-th link (`F_CHARS[i]`).
fn f_char(i: usize) -> (s: String)
    requires
        i < LABEL_COUNT,
    ensures
        s@ == f_char_label(i as nat),
{
    let mut k: usize = i;
    let mut j: usize = 0;
    proof {
        lemma_labels_before_24();
    }
    while k > j
        invariant
            label_from(k as nat, j as nat) == f_char_label(i as nat),
            k + labels_before(j as nat) == i,
            i < 300,
            labels_before(24) == 300,
        decreases k,
    {
        proof {
            if j >= 23 {
                lemma_labels_before_mono(24, (j + 1) as nat);
            }
        }
        k = k - j - 1;
        j = j + 1;
    }
    proof {
        if j >= 24 {
            lemma_labels_before_mono(24, j as nat);
        }
    }
    let first = (97u8 + k as u8) as char;
    let second = (98u8 + j as u8) as char;
    let mut s = String::new();
    crate::text::push_char(&mut s, first);
    crate::text::push_char(&mut s, second);
    assert(s@ =~= seq![(97 + k) as char, (98 + j) as char]);
    s
}

/// The scheme prefix `gemini://`.
pub open spec fn gemini_scheme() -> Seq<char> {
    seq!['g', 'e', 'm', 'i', 'n', 'i', ':', '/', '/']
}

/// `gemini://` as characters.
pub fn gemini_scheme_chars() -> (r: Vec<char>)
    ensures
        r@ == gemini_scheme(),
{
    vec!['g', 'e', 'm', 'i', 'n', 'i', ':', '/', '/']
}

/// The words after the `=>` of a link line.
pub open spec fn link_words(line: Seq<char>) -> Seq<Seq<char>> {
    words(line.skip(2))
}

/// The alternative text of a link line: its words after the first, joined
/// by single spaces, when that is not empty.
pub open spec fn link_alt(parts: Seq<Seq<char>>) -> Option<Seq<char>> {
    let joined = if parts.len() > 1 {
        join_spaced(parts.skip(1))
    } else {
        seq![]
    };
    if joined.len() > 0 {
        Some(joined)
    } else {
        None
    }
}

/// The link that a link line makes when it is the `i`-th link of the page:
/// its target is the first word after `=>` (empty if there is none), its
/// alternative text the remaining words, its label `f_char_label(i)`, and
/// it is relative unless the target starts with `gemini://`.
pub open spec fn link_of(line: Seq<char>, i: nat) -> LinkView {
    let parts = link_words(line);
    let link = if parts.len() > 0 {
        parts[0]
    } else {
        seq![]
    };
    LinkView {
        alt: link_alt(parts),
        link,
        f_char: f_char_label(i),
        is_relative: !has_prefix(link, gemini_scheme()),
    }
}

fn parse_link_line(line: &str, f_char_i: usize) -> (r: LineType)
    requires
        has_prefix(line@, seq!['=', '>']),
        f_char_i < LABEL_COUNT,
    ensures
        r@ == LineView::Link(link_of(line@, f_char_i as nat)),
{
    let mut cs = str_chars(line);
    let rest = cs.split_off(2);
    let parts = split_whitespace(&rest);
    proof {
        assert(rest@ == line@.skip(2));
    }
    let mut link_chars: Vec<char> = Vec::new();
    if parts.len() > 0 {
        link_chars = parts[0].clone();
    }
    let joined: Vec<char> = if parts.len() > 1 {
        join_spaced_from(&parts, 1)
    } else {
        Vec::new()
    };
    let alt = if joined.len() > 0 {
        Some(string_from_chars(&joined))
    } else {
        None
    };
    let is_relative = !starts_with(&link_chars, &gemini_scheme_chars());
    let link = Link {
        alt,
        link: string_from_chars(&link_chars),
        f_char: f_char(f_char_i),
        is_relative,
    };
    LineType::Link(link)
}

/// The UTF-8 bytes of a line start with three backquotes (a fence line).
pub open spec fn is_fence(b: Seq<u8>) -> bool {
    b.len() >= 3 && b[0] == '`' as u8 && b[1] == '`' as u8 && b[2] == '`' as u8
}

/// What one body line yields, given the state before it and the number of
/// links seen so far: the parsed lines it adds (none for a fence), the state
/// after it, and the number of links after it. A line under three bytes is
/// an empty text line; outside a preformatted block a fence opens one and
/// the first byte picks heading (`#`), link (`=`), list (`*`), quote (`>`)
/// or text; inside, a fence closes the block and any other line becomes a
/// preformatted block of that one line.
pub open spec fn step_line(line: Seq<char>, state: ParserState, links: nat) -> (
    Seq<LineView>,
    ParserState,
    nat,
) {
    let b = encode_utf8(line);
    if b.len() < 3 {
        (seq![LineView::Text(seq![])], state, links)
    } else if state == ParserState::Normal {
        if is_fence(b) {
            (seq![], ParserState::Preformated, links)
        } else if b[0] == '#' as u8 {
            (seq![LineView::Heading(heading_of(line))], state, links)
        } else if b[0] == '=' as u8 {
            (seq![LineView::Link(link_of(line, links))], state, links + 1)
        } else if b[0] == '*' as u8 {
            (seq![LineView::List(line)], state, links)
        } else if b[0] == '>' as u8 {
            (seq![LineView::Quote(line)], state, links)
        } else {
            (seq![LineView::Text(line)], state, links)
        }
    } else if is_fence(b) {
        (seq![], ParserState::Normal, links)
    } else {
        (seq![LineView::Preformat(seq![line])], state, links)
    }
}

/// A body line can be parsed in the given state: a line taken as a link
/// starts with `=>` and there is still a label for it.
pub open spec fn line_accepted(line: Seq<char>, state: ParserState, links: nat) -> bool {
    let b = encode_utf8(line);
    (b.len() >= 3 && state == ParserState::Normal && !is_fence(b) && b[0] == '=' as u8) ==> (
    has_prefix(line, seq!['=', '>']) && links < LABEL_COUNT)
}

/// The parsed lines, final state and link count of a body, parsed from the
/// first line to the last.
pub open spec fn parse_body(lines: Seq<Seq<char>>, state: ParserState, links: nat) -> (
    Seq<LineView>,
    ParserState,
    nat,
)
    decreases lines.len(),
{
    if lines.len() == 0 {
        (seq![], state, links)
    } else {
        let before = parse_body(lines.drop_last(), state, links);
        let last = step_line(lines.last(), before.1, before.2);
        (before.0 + last.0, last.1, last.2)
    }
}

/// Every line of the body can be parsed in the state it is reached in.
pub open spec fn body_accepted(lines: Seq<Seq<char>>, state: ParserState, links: nat) -> bool
    decreases lines.len(),
{
    lines.len() == 0 || (body_accepted(lines.drop_last(), state, links) && line_accepted(
        lines.last(),
        parse_body(lines.drop_last(), state, links).1,
        parse_body(lines.drop_last(), state, links).2,
    ))
}

proof fn lemma_accepted_prefix(lines: Seq<Seq<char>>, state: ParserState, links: nat, i: int)
    requires
        body_accepted(lines, state, links),
        0 <= i <= lines.len(),
    ensures
        body_accepted(lines.take(i), state, links),
    decreases lines.len(),
{
    if i == lines.len() {
        assert(lines.take(i) == lines);
    } else {
        lemma_accepted_prefix(lines.drop_last(), state, links, i);
        assert(lines.drop_last().take(i) == lines.take(i));
    }
}

/// Parses `lines[start..]` from `state`, appending to `out`. Returns whether
/// the body is accepted and the state after it; when it is, `out` has gained
/// exactly the parsed lines.
fn run_body(lines: &Vec<Vec<char>>, start: usize, state: ParserState, out: &mut Vec<LineType>) -> (r: (
    bool,
    ParserState,
))
    requires
        start <= lines@.len(),
    ensures
        r.0 == body_accepted(char_rows(lines@).skip(start as int), state, 0),
        r.0 ==> {
            let p = parse_body(char_rows(lines@).skip(start as int), state, 0);
            &&& line_views(final(out)@) == line_views(old(out)@) + p.0
            &&& r.1 == p.1
        },
{
    let ghost rows = char_rows(lines@);
    let ghost out0 = line_views(out@);
    let n = lines.len();
    let mut st = state;
    let mut k: usize = 0;
    for i in start..n
        invariant
            n == lines@.len(),
            rows == char_rows(lines@),
            start <= n,
            body_accepted(rows.subrange(start as int, i as int), state, 0),
            ({
                let p = parse_body(rows.subrange(start as int, i as int), state, 0);
                &&& line_views(out@) == out0 + p.0
                &&& st == p.1
                &&& k == p.2
            }),
    {
        let ghost sub = rows.subrange(start as int, i + 1);
        let ghost prev = rows.subrange(start as int, i as int);
        assert(sub.drop_last() == prev);
        assert(sub.last() == lines@[i as int]@);
        let ghost before = line_views(out@);
        let ghost prev_p = parse_body(prev, state, 0);
        let ghost stp = step_line(sub.last(), prev_p.1, prev_p.2);
        assert(parse_body(sub, state, 0) == (prev_p.0 + stp.0, stp.1, stp.2));
        let line_s = string_from_chars(lines[i].as_slice());
        let line: &str = line_s.as_str();
        let bytes = line.as_bytes();
        assert(bytes@ == encode_utf8(lines@[i as int]@));
        if bytes.len() < 3 {
            out.push(LineType::Text(String::new()));
            assert(line_views(out@) =~= before.push(LineView::Text(seq![])));
            assert(stp.0 == seq![LineView::Text(seq![])]);
        } else if st == ParserState::Normal {
            if bytes[0] == 0x60u8 && bytes[1] == 0x60u8 && bytes[2] == 0x60u8 {
                st = ParserState::Preformated;
                assert(is_fence(bytes@));
                assert(stp.0 == Seq::<LineView>::empty());
                assert(line_views(out@) =~= before + Seq::<LineView>::empty());
            } else {
                let pref = bytes[0];
                if pref == 0x23u8 {
                    out.push(parse_heading_line(line));
                } else if pref == 0x3du8 {
                    let lc = str_chars(line);
                    if !starts_with(&lc, &vec!['=', '>']) || k >= LABEL_COUNT {
                        proof {
                            if body_accepted(rows.skip(start as int), state, 0) {
                                lemma_accepted_prefix(
                                    rows.skip(start as int),
                                    state,
                                    0,
                                    (i + 1 - start) as int,
                                );
                                assert(rows.skip(start as int).take((i + 1 - start) as int)
                                    == sub);
                            }
                        }
                        return (false, st);
                    }
                    out.push(parse_link_line(line, k));
                    k = k + 1;
                } else if pref == 0x2au8 {
                    out.push(parse_list_line(line));
                } else if pref == 0x3eu8 {
                    out.push(parse_quote_line(line));
                } else {
                    out.push(parse_text_line(line));
                }
                assert(line_views(out@) =~= before + stp.0);
            }
        } else if bytes[0] == 0x60u8 && bytes[1] == 0x60u8 && bytes[2] == 0x60u8 {
            st = ParserState::Normal;
            assert(is_fence(bytes@));
            assert(stp.0 == Seq::<LineView>::empty());
            assert(line_views(out@) =~= before + Seq::<LineView>::empty());
        } else {
            let pre = vec![line.to_owned()];
            assert(string_rows(pre@) =~= seq![line@]);
            out.push(LineType::Preformat(pre));
            assert(line_views(out@) =~= before.push(LineView::Preformat(seq![line@])));
            assert(!is_fence(bytes@));
            assert(stp.0 == seq![LineView::Preformat(seq![line@])]);
        }
        assert(line_views(out@) =~= before + stp.0);
        assert(st == stp.1);
        assert(k == stp.2);
        assert(line_accepted(sub.last(), prev_p.1, prev_p.2));
    }
    assert(rows.subrange(start as int, n as int) == rows.skip(start as int));
    (true, st)
}

/// A gemtext parser over one response: its status line comes first, the
/// body after it.
pub struct Parser<'a> {
    text: &'a str,
    consumed: bool,
    output: Vec<LineType>,
    state: ParserState,
}

impl<'a> Parser<'a> {
    /// The lines not read yet.
    pub closed spec fn remaining(&self) -> Seq<Seq<char>> {
        if self.consumed {
            seq![]
        } else {
            lines_of(self.text@)
        }
    }

    /// The lines parsed so far.
    pub closed spec fn parsed(&self) -> Seq<LineView> {
        line_views(self.output@)
    }

    /// Whether the parser is inside a preformatted block.
    pub closed spec fn mode(&self) -> ParserState {
        self.state
    }

    /// `parse_gemtext` can run: there is a status line left to skip, and
    /// every body line after it can be parsed.
    pub open spec fn ready(&self) -> bool {
        &&& self.remaining().len() > 0
        &&& body_accepted(self.remaining().drop_first(), self.mode(), 0)
    }

    /// A parser over the lines of `gemtext`, with nothing parsed yet.
    pub fn new(gemtext: &'a str) -> (p: Self)
        ensures
            p.remaining() == lines_of(gemtext@),
            p.parsed() == Seq::<LineView>::empty(),
            p.mode() == ParserState::Normal,
    {
        let p = Self { text: gemtext, consumed: false, output: Vec::new(), state: ParserState::Normal };
        assert(p.parsed() =~= Seq::<LineView>::empty());
        p
    }

    /// Whether `parse_gemtext` can run on this parser.
    pub fn can_parse(&self) -> (b: bool)
        ensures
            b == self.ready(),
    {
        if self.consumed {
            return false;
        }
        let cs = str_chars(self.text);
        let lines = split_lines(cs.as_slice());
        if lines.len() == 0 {
            return false;
        }
        let mut scratch: Vec<LineType> = Vec::new();
        let (ok, _) = run_body(&lines, 1, self.state, &mut scratch);
        proof {
            assert(char_rows(lines@).skip(1) == char_rows(lines@).drop_first());
        }
        ok
    }

    /// Skips the status line and parses every remaining line, appending the
    /// parsed lines; the preformatted state carries over, link labels start
    /// again from the first.
    pub fn parse_gemtext(&mut self)
        requires
            old(self).ready(),
        ensures
            final(self).remaining() == Seq::<Seq<char>>::empty(),
            final(self).parsed() == old(self).parsed() + parse_body(
                old(self).remaining().drop_first(),
                old(self).mode(),
                0,
            ).0,
            final(self).mode() == parse_body(
                old(self).remaining().drop_first(),
                old(self).mode(),
                0,
            ).1,
            forall|i: int|
                old(self).parsed().len() <= i < final(self).parsed().len() ==> well_shaped(
                    #[trigger] final(self).parsed()[i],
                ),
            forall|i: int, j: int|
                #![trigger final(self).parsed()[i], final(self).parsed()[j]]
                old(self).parsed().len() <= i < j < final(self).parsed().len()
                    && final(self).parsed()[i] is Link && final(self).parsed()[j] is Link
                    ==> final(self).parsed()[i]->Link_0.f_char
                    != final(self).parsed()[j]->Link_0.f_char,
    {
        let cs = str_chars(self.text);
        let lines = split_lines(cs.as_slice());
        proof {
            assert(char_rows(lines@).skip(1) == char_rows(lines@).drop_first());
        }
        let ghost before = self.parsed();
        let ghost body = char_rows(lines@).drop_first();
        let ghost start = self.state;
        let (_, st) = run_body(&lines, 1, self.state, &mut self.output);
        self.state = st;
        self.consumed = true;
        proof {
            let out = parse_body(body, start, 0).0;
            lemma_parsed_shapes(body, start, 0);
            assert(self.parsed() == before + out);
            assert forall|i: int| before.len() <= i < self.parsed().len() implies well_shaped(
                #[trigger] self.parsed()[i],
            ) by {
                assert(self.parsed()[i] == out[i - before.len()]);
            }
            assert forall|i: int, j: int|
                before.len() <= i < j < self.parsed().len() && (#[trigger] self.parsed()[i]) is Link
                    && (#[trigger] self.parsed()[j]) is Link implies self.parsed()[i]->Link_0.f_char
                != self.parsed()[j]->Link_0.f_char by {
                assert(self.parsed()[i] == out[i - before.len()]);
                assert(self.parsed()[j] == out[j - before.len()]);
                lemma_parsed_labels_distinct(body, start, i - before.len(), j - before.len());
            }
        }
    }

    /// The parsed lines.
    pub fn get_lines(self) -> (r: Vec<LineType>)
        ensures
            line_views(r@) == self.parsed(),
    {
        self.output
    }
}

/// Every heading in `content` has a level from 1 to 3.
pub open spec fn headings_ok(content: Seq<LineView>) -> bool {
    forall|i: int|
        0 <= i < content.len() ==> (#[trigger] content[i] matches LineView::Heading(h) ==> 1
            <= h.level <= 3)
}

/// Parsing only ever makes headings of level 1 to 3.
pub proof fn lemma_parsed_headings(lines: Seq<Seq<char>>, state: ParserState, links: nat)
    ensures
        headings_ok(parse_body(lines, state, links).0),
    decreases lines.len(),
{
    if lines.len() > 0 {
        lemma_parsed_headings(lines.drop_last(), state, links);
        let before = parse_body(lines.drop_last(), state, links);
        let last = step_line(lines.last(), before.1, before.2);
        assert(headings_ok(last.0));
        let all = before.0 + last.0;
        assert forall|i: int| 0 <= i < all.len() implies (#[trigger] all[i] matches LineView::Heading(
            h,
        ) ==> 1 <= h.level <= 3) by {
            if i < before.0.len() {
                assert(all[i] == before.0[i]);
            } else {
                assert(all[i] == last.0[i - before.0.len()]);
            }
        }
    }
}

/// A response body that the parser accepts: it has a status line, and every
/// line after it can be parsed from the normal state.
pub open spec fn response_ready(body: Seq<char>) -> bool {
    &&& lines_of(body).len() > 0
    &&& body_accepted(lines_of(body).drop_first(), ParserState::Normal, 0)
}

/// The lines that a fresh parser makes of an accepted response body.
pub open spec fn parse_response(body: Seq<char>) -> Seq<LineView> {
    parse_body(lines_of(body).drop_first(), ParserState::Normal, 0).0
}

/// Whether a fresh parser accepts `body`.
pub fn response_parses(body: &str) -> (b: bool)
    ensures
        b == response_ready(body@),
{
    let p = Parser::new(body);
    p.can_parse()
}

/// The position of the first letter of `label_from(i, j)` after `'a'`.
pub open spec fn label_first(i: nat, j: nat) -> nat
    decreases i,
{
    if i <= j {
        i
    } else {
        label_first((i - j - 1) as nat, j + 1)
    }
}

/// The position of the second letter of `label_from(i, j)` after `'b'`.
pub open spec fn label_second(i: nat, j: nat) -> nat
    decreases i,
{
    if i <= j {
        j
    } else {
        label_second((i - j - 1) as nat, j + 1)
    }
}

proof fn lemma_label_parts(i: nat, j: nat)
    ensures
        label_from(i, j) == seq![(97 + label_first(i, j)) as char, (98 + label_second(i, j)) as char],
        label_first(i, j) <= label_second(i, j),
        j <= label_second(i, j),
        i + labels_before(j) == labels_before(label_second(i, j)) + label_first(i, j),
    decreases i,
{
    if i > j {
        lemma_label_parts((i - j - 1) as nat, j + 1);
    }
}

proof fn lemma_labels_before_24()
    ensures
        labels_before(24) == 300,
{
    reveal_with_fuel(labels_before, 25);
}

proof fn lemma_label_bounds(i: nat)
    requires
        i < LABEL_COUNT,
    ensures
        label_first(i, 0) <= label_second(i, 0) <= 23,
        i == labels_before(label_second(i, 0)) + label_first(i, 0),
{
    lemma_label_parts(i, 0);
    lemma_labels_before_24();
    let si = label_second(i, 0);
    if si >= 24 {
        lemma_labels_before_mono(24, si);
    }
}

/// A label is two letters from `a` to `y`, the first before the second, and
/// different link positions below `LABEL_COUNT` get different labels.
pub proof fn lemma_labels_distinct(i: nat, k: nat)
    requires
        i < LABEL_COUNT,
        k < LABEL_COUNT,
    ensures
        f_char_label(i).len() == 2,
        'a' <= f_char_label(i)[0] < f_char_label(i)[1] <= 'y',
        f_char_label(i) == f_char_label(k) ==> i == k,
{
    lemma_label_parts(i, 0);
    lemma_label_parts(k, 0);
    lemma_label_bounds(i);
    lemma_label_bounds(k);
    let fi = label_first(i, 0);
    let si = label_second(i, 0);
    let fk = label_first(k, 0);
    let sk = label_second(k, 0);
    assert(f_char_label(i)[0] == (97 + fi) as char);
    assert(f_char_label(i)[1] == (98 + si) as char);
    if f_char_label(i) == f_char_label(k) {
        assert(f_char_label(k)[0] == (97 + fk) as char);
        assert(f_char_label(k)[1] == (98 + sk) as char);
        assert(fi == fk);
        assert(si == sk);
    }
}

/// The number of links among `out`.
pub open spec fn count_links(out: Seq<LineView>) -> nat
    decreases out.len(),
{
    if out.len() == 0 {
        0
    } else {
        count_links(out.drop_last()) + if out.last() is Link {
            1nat
        } else {
            0nat
        }
    }
}

/// The position among the links of a page of the link at `i`.
pub open spec fn link_position(out: Seq<LineView>, i: int) -> nat {
    count_links(out.take(i))
}

proof fn lemma_count_links_prefix(out: Seq<LineView>, i: int, j: int)
    requires
        0 <= i < j <= out.len(),
        out[i] is Link,
    ensures
        count_links(out.take(i)) < count_links(out.take(j)),
    decreases j,
{
    let t = out.take(j);
    assert(t.drop_last() == out.take(j - 1));
    if j - 1 == i {
        assert(t.last() == out[i]);
    } else {
        lemma_count_links_prefix(out, i, j - 1);
    }
}

/// In an accepted body, the link at `i` of the parsed lines has the label of
/// its position among the links, that position is below `LABEL_COUNT`, and
/// the final link count counts every link.
pub proof fn lemma_parsed_link_labels(lines: Seq<Seq<char>>, state: ParserState, links: nat)
    requires
        body_accepted(lines, state, links),
    ensures
        parse_body(lines, state, links).2 == links + count_links(parse_body(lines, state, links).0),
        forall|i: int|
            0 <= i < parse_body(lines, state, links).0.len() ==> (
            #[trigger] parse_body(lines, state, links).0[i] matches LineView::Link(l) ==> {
                &&& links + link_position(parse_body(lines, state, links).0, i) < LABEL_COUNT
                &&& l.f_char == f_char_label(
                    links + link_position(parse_body(lines, state, links).0, i),
                )
            }),
    decreases lines.len(),
{
    if lines.len() > 0 {
        lemma_parsed_link_labels(lines.drop_last(), state, links);
        let before = parse_body(lines.drop_last(), state, links);
        let last = step_line(lines.last(), before.1, before.2);
        let out = before.0 + last.0;
        assert(parse_body(lines, state, links).0 == out);
        if last.0.len() == 1 {
            assert(out.drop_last() == before.0);
            assert(out.last() == last.0[0]);
        } else {
            assert(last.0.len() == 0);
            assert(out == before.0);
        }
        assert forall|i: int| 0 <= i < out.len() implies (#[trigger] out[i] matches LineView::Link(
            l,
        ) ==> {
            &&& links + link_position(out, i) < LABEL_COUNT
            &&& l.f_char == f_char_label(links + link_position(out, i))
        }) by {
            if i < before.0.len() {
                assert(out.take(i) == before.0.take(i));
                assert(out[i] == before.0[i]);
            } else {
                assert(out.take(i) == before.0);
                assert(out[i] == last.0[0]);
            }
        }
    }
}

/// Two different links of an accepted body have different labels.
pub proof fn lemma_parsed_labels_distinct(lines: Seq<Seq<char>>, state: ParserState, i: int, j: int)
    requires
        body_accepted(lines, state, 0),
        0 <= i < j < parse_body(lines, state, 0).0.len(),
        parse_body(lines, state, 0).0[i] is Link,
        parse_body(lines, state, 0).0[j] is Link,
    ensures
        parse_body(lines, state, 0).0[i]->Link_0.f_char != parse_body(lines, state, 0).0[j]->Link_0.f_char,
{
    let out = parse_body(lines, state, 0).0;
    lemma_parsed_link_labels(lines, state, 0);
    assert(out[i] matches LineView::Link(l) ==> l.f_char == f_char_label(link_position(out, i)));
    assert(out[j] matches LineView::Link(l) ==> l.f_char == f_char_label(link_position(out, j)));
    lemma_count_links_prefix(out, i, j);
    lemma_labels_distinct(link_position(out, i), link_position(out, j));
}

/// A link has alternative text exactly when its line has more than one
/// word after the `=>`.
pub proof fn lemma_link_alt_iff_words(line: Seq<char>, i: nat)
    ensures
        link_of(line, i).alt is Some <==> link_words(line).len() > 1,
{
    let parts = link_words(line);
    if parts.len() > 1 {
        lemma_words_nonempty(line.skip(2));
        assert(parts.skip(1)[0] == parts[1]);
        lemma_join_nonempty(parts.skip(1));
    }
}

proof fn lemma_ascii_byte(c: char)
    requires
        (c as u32) < 128,
    ensures
        encode_utf8(seq![c]) == seq![c as u32 as u8],
        (c as u32 as u8) as u32 == c as u32,
{
    let v = c as u32;
    assert(v & 0x7F == v) by (bit_vector)
        requires
            v < 128,
    ;
    reveal_with_fuel(encode_utf8, 2);
    assert(seq![c].drop_first() =~= Seq::<char>::empty());
}

/// Labels of links, byte by byte: the link lines at two different positions
/// below `LABEL_COUNT` get different labels, and each label is two bytes
/// `x < y` from `b'a'` to `b'y'`.
pub proof fn lemma_link_labels_distinct(l1: Seq<char>, l2: Seq<char>, i: nat, j: nat)
    requires
        i < LABEL_COUNT,
        j < LABEL_COUNT,
        i != j,
    ensures
        link_of(l1, i).f_char != link_of(l2, j).f_char,
        encode_utf8(link_of(l1, i).f_char).len() == 2,
        'a' as u8 <= encode_utf8(link_of(l1, i).f_char)[0] < encode_utf8(link_of(l1, i).f_char)[1]
            <= 'y' as u8,
{
    lemma_labels_distinct(i, j);
    let f = f_char_label(i);
    let c0 = f[0];
    let c1 = f[1];
    assert(f =~= seq![c0] + seq![c1]);
    lemma_ascii_byte(c0);
    lemma_ascii_byte(c1);
    reveal_with_fuel(encode_utf8, 3);
    assert(f.drop_first() =~= seq![c1]);
    assert(seq![c0].drop_first() =~= Seq::<char>::empty());
    assert(encode_utf8(f) =~= encode_utf8(seq![c0]) + encode_utf8(seq![c1]));
}

/// An ASCII first byte of a UTF-8 encoding is the first character.
proof fn lemma_first_byte_ascii(line: Seq<char>, b: u8)
    requires
        encode_utf8(line).len() > 0,
        encode_utf8(line)[0] == b,
        b < 128,
    ensures
        line.len() > 0,
        line[0] as u32 == b as u32,
        line[0] == (b as u32) as char,
{
    if line.len() == 0 {
        assert(encode_utf8(line) =~= Seq::<u8>::empty());
    }
    let v = line[0] as u32;
    vstd::utf8::char_is_scalar(line[0]);
    assert(encode_utf8(line)[0] == vstd::utf8::encode_scalar(v)[0]);
    if vstd::utf8::has_width_1_encoding(v) {
        assert(vstd::utf8::encode_scalar(v)[0] == vstd::utf8::leading_byte_width_1(v));
        assert(((v & 0x7F) as u8) as u32 == v) by (bit_vector)
            requires
                v < 128,
        ;
        vstd::utf8::char_u32_cast(line[0], v);
    } else if vstd::utf8::has_width_2_encoding(v) {
        assert(vstd::utf8::encode_scalar(v)[0] == vstd::utf8::leading_byte_width_2(v));
        assert((0xC0 | ((v >> 6) & 0x1F) as u8) >= 0xC0) by (bit_vector);
    } else if vstd::utf8::has_width_3_encoding(v) {
        assert(vstd::utf8::encode_scalar(v)[0] == vstd::utf8::leading_byte_width_3(v));
        assert((0xE0 | ((v >> 12) & 0x0F) as u8) >= 0xE0) by (bit_vector);
    } else {
        assert(vstd::utf8::encode_scalar(v)[0] == vstd::utf8::leading_byte_width_4(v));
        assert((0xF0 | ((v >> 18) & 0x7) as u8) >= 0xF0) by (bit_vector);
    }
}

/// What each kind of parsed line looks like: a preformatted block holds one
/// line of at least three bytes that is not a fence; a heading has level 1
/// to 3 and a title starting with `#`; a link has no empty alternative text
/// and is relative exactly when its target lacks `gemini://`; a list item
/// starts with `*`, a quote with `>`; a text line is empty or at least three
/// bytes long.
pub open spec fn well_shaped(e: LineView) -> bool {
    match e {
        LineView::Preformat(v) => v.len() == 1 && encode_utf8(v[0]).len() >= 3 && !is_fence(
            encode_utf8(v[0]),
        ),
        LineView::Heading(h) => 1 <= h.level <= 3 && h.title.len() > 0 && h.title[0] == '#',
        LineView::Link(l) => l.alt != Some(Seq::<char>::empty()) && l.is_relative == !has_prefix(
            l.link,
            gemini_scheme(),
        ),
        LineView::List(s) => s.len() > 0 && s[0] == '*',
        LineView::Quote(s) => s.len() > 0 && s[0] == '>',
        LineView::Text(t) => t.len() == 0 || encode_utf8(t).len() >= 3,
    }
}

proof fn lemma_step_shaped(line: Seq<char>, state: ParserState, links: nat)
    ensures
        forall|i: int|
            0 <= i < step_line(line, state, links).0.len() ==> well_shaped(
                #[trigger] step_line(line, state, links).0[i],
            ),
{
    let b = encode_utf8(line);
    if b.len() >= 3 && state == ParserState::Normal && !is_fence(b) {
        if b[0] == '#' as u8 {
            lemma_first_byte_ascii(line, b[0]);
            vstd::utf8::char_u32_cast('#', '#' as u32);
            assert(heading_of(line).title[0] == '#');
        } else if b[0] == '*' as u8 {
            lemma_first_byte_ascii(line, b[0]);
            vstd::utf8::char_u32_cast('*', '*' as u32);
        } else if b[0] == '>' as u8 {
            lemma_first_byte_ascii(line, b[0]);
            vstd::utf8::char_u32_cast('>', '>' as u32);
        }
    }
    if b.len() < 3 {
        assert(encode_utf8(Seq::<char>::empty()) =~= Seq::<u8>::empty());
    }
}

/// Every line that parsing makes is well shaped.
pub proof fn lemma_parsed_shapes(lines: Seq<Seq<char>>, state: ParserState, links: nat)
    ensures
        forall|i: int|
            0 <= i < parse_body(lines, state, links).0.len() ==> well_shaped(
                #[trigger] parse_body(lines, state, links).0[i],
            ),
    decreases lines.len(),
{
    if lines.len() > 0 {
        lemma_parsed_shapes(lines.drop_last(), state, links);
        let before = parse_body(lines.drop_last(), state, links);
        let last = step_line(lines.last(), before.1, before.2);
        lemma_step_shaped(lines.last(), before.1, before.2);
        let all = before.0 + last.0;
        assert forall|i: int| 0 <= i < all.len() implies well_shaped(#[trigger] all[i]) by {
            if i < before.0.len() {
                assert(all[i] == before.0[i]);
            } else {
                assert(all[i] == last.0[i - before.0.len()]);
            }
        }
    }
}

/// The alternative text of a link line with more than one word after `=>`
/// is exactly the remaining words joined by single spaces: splitting it into
/// words gives back the words after the target.
pub proof fn lemma_link_alt_words(line: Seq<char>, i: nat)
    requires
        link_words(line).len() > 1,
    ensures
        link_of(line, i).alt == Some(join_spaced(link_words(line).skip(1))),
        words(link_of(line, i).alt->0) == link_words(line).skip(1),
{
    let parts = link_words(line);
    let rest = parts.skip(1);
    lemma_words_nonempty(line.skip(2));
    lemma_words_clean(line.skip(2));
    assert forall|k: int| 0 <= k < rest.len() implies (#[trigger] rest[k]).len() > 0 by {
        assert(rest[k] == parts[k + 1]);
    }
    assert forall|k: int| 0 <= k < rest.len() implies crate::text::no_white_space(
        #[trigger] rest[k],
    ) by {
        assert(rest[k] == parts[k + 1]);
    }
    assert(rest[0] == parts[1]);
    lemma_join_nonempty(rest);
    lemma_words_of_joined(rest);
}

/// A body line of at least three bytes outside a preformatted block that is
/// not a fence and starts with none of `#`, `=`, `*`, `>` is a text line
/// holding the whole line, and changes neither the state nor the link count.
pub proof fn lemma_plain_line_is_text(line: Seq<char>, k: nat)
    requires
        encode_utf8(line).len() >= 3,
        !is_fence(encode_utf8(line)),
        encode_utf8(line)[0] != '#' as u8,
        encode_utf8(line)[0] != '=' as u8,
        encode_utf8(line)[0] != '*' as u8,
        encode_utf8(line)[0] != '>' as u8,
    ensures
        step_line(line, ParserState::Normal, k) == (
            seq![LineView::Text(line)],
            ParserState::Normal,
            k,
        ),
{
}

/// Every non-empty text, list item, quote, heading title and preformatted
/// line that parsing makes is one of the body's lines, whole.
pub open spec fn from_source(e: LineView, lines: Seq<Seq<char>>) -> bool {
    match e {
        LineView::Text(t) => t.len() == 0 || lines.contains(t),
        LineView::List(t) => lines.contains(t),
        LineView::Quote(t) => lines.contains(t),
        LineView::Heading(h) => lines.contains(h.title),
        LineView::Preformat(v) => v.len() == 1 && lines.contains(v[0]),
        LineView::Link(_) => true,
    }
}

/// Parsing keeps lines whole: every parsed line other than a link or an
/// empty text line is one of the body's lines as it was.
pub proof fn lemma_parsed_lines_from_source(lines: Seq<Seq<char>>, state: ParserState, links: nat)
    ensures
        forall|i: int|
            0 <= i < parse_body(lines, state, links).0.len() ==> from_source(
                #[trigger] parse_body(lines, state, links).0[i],
                lines,
            ),
    decreases lines.len(),
{
    if lines.len() > 0 {
        lemma_parsed_lines_from_source(lines.drop_last(), state, links);
        let before = parse_body(lines.drop_last(), state, links);
        let last = step_line(lines.last(), before.1, before.2);
        let all = before.0 + last.0;
        assert(lines.contains(lines.last())) by {
            assert(lines[lines.len() - 1] == lines.last());
        }
        assert forall|i: int| 0 <= i < all.len() implies from_source(#[trigger] all[i], lines) by {
            if i < before.0.len() {
                assert(all[i] == before.0[i]);
                assert(from_source(before.0[i], lines.drop_last()));
                assert forall|t: Seq<char>| lines.drop_last().contains(t) implies lines.contains(
                    t,
                ) by {
                    let j = choose|j: int| 0 <= j < lines.drop_last().len() && lines.drop_last()[j] == t;
                    assert(lines[j] == t);
                }
            } else {
                assert(all[i] == last.0[i - before.0.len()]);
            }
        }
    }
}

} // verus!
