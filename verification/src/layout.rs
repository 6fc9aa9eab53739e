//! Where things go on the screen: the help popup, the logo and the lines
//! under it, the cursor in the URL box, and how tall a page is once its
//! lines wrap.

use vstd::prelude::*;
use crate::browser::{text_line_view, text_lines_view, TextLine, TextStyle};
use ratatui::layout::{Constraint, Direction, Layout, Rect};

verus! {

/// A rectangle of terminal cells.
#[derive(Debug, Clone, Copy, PartialEq, Eq, Structural)]
pub struct Area {
    pub x: u16,
    pub y: u16,
    pub width: u16,
    pub height: u16,
}

/// The far edge of a span that starts at `start` and is `len` cells long,
/// saturating at the last representable cell (as ratatui's `right` and
/// `bottom` do).
pub open spec fn far_edge(start: u16, len: u16) -> int {
    if start + len > u16::MAX {
        u16::MAX as int
    } else {
        start + len
    }
}

/// `seg` is a segment of `area` split along the given direction: it keeps
/// the other direction's position and size, and lies between the edges of
/// `area` along the split direction.
pub open spec fn segment_of(seg: Area, area: Area, vertical: bool) -> bool {
    if vertical {
        &&& seg.x == area.x
        &&& seg.width == area.width
        &&& area.y <= seg.y
        &&& seg.y + seg.height <= far_edge(area.y, area.height)
    } else {
        &&& seg.y == area.y
        &&& seg.height == area.height
        &&& area.x <= seg.x
        &&& seg.x + seg.width <= far_edge(area.x, area.width)
    }
}

/// What ratatui's `Layout::split` makes of `area` split in three along the
/// given direction (vertical: stacked rows) with `Percentage` constraints
/// `first`, `middle` and `last` (adding up to at most 100), under the
/// default flex and no margin.
pub uninterp spec fn percent_split(vertical: bool, first: u16, middle: u16, last: u16, area: Area) -> Seq<Area>;

/// Splits `area` in three by percentages with ratatui's `Layout::split`.
/// Trusted: the segments are ratatui's result, named `percent_split`. Where
/// the percentages add up to at most 100 they can all be met at once, so the
/// solver's optimum is the one split that meets them, whatever order it
/// pivots in, and the rounding after it is fixed; `requires` keeps to those
/// inputs (ratatui documents conflicting constraints as giving an
/// indeterminate split). Ratatui's source also shows that there is one segment per
/// constraint, that with no margin each keeps the area's position and size
/// across the split direction, and that its ends are held by `REQUIRED`
/// constraints (which kasuari documents as never violated) between the
/// area's edges and then rounded, so each segment lies within the area.
#[verifier::external_body]
fn split_by_percent(vertical: bool, first: u16, middle: u16, last: u16, area: Area) -> (r: Vec<Area>)
    requires
        first + middle + last <= 100,
    ensures
        r@ == percent_split(vertical, first, middle, last, area),
        r@.len() == 3,
        forall|i: int| 0 <= i < 3 ==> segment_of(#[trigger] r@[i], area, vertical),
{
    let direction = if vertical { Direction::Vertical } else { Direction::Horizontal };
    let parts = [Constraint::Percentage(first), Constraint::Percentage(middle), Constraint::Percentage(last)];
    let rect = Rect { x: area.x, y: area.y, width: area.width, height: area.height };
    let rects = Layout::default().direction(direction).constraints(parts).split(rect);
    rects.iter().map(|r| Area { x: r.x, y: r.y, width: r.width, height: r.height }).collect()
}

/// The middle one of three segments.
pub fn middle_segment(parts: &Vec<Area>) -> (m: Area)
    requires
        parts@.len() == 3,
    ensures
        m == parts@[1],
{
    parts[1]
}

/// The percentages that centre a span of `percent` percent: an equal margin
/// on each side, `(100 - percent) / 2` each (rounded down).
pub fn centering_percentages(percent: u16) -> (r: (u16, u16, u16))
    requires
        percent <= 100,
    ensures
        r == (((100 - percent) / 2) as u16, percent, ((100 - percent) / 2) as u16),
{
    let side = (100 - percent) / 2;
    (side, percent, side)
}

/// A rectangle of about `percent_x` by `percent_y` percent, centred in `r`:
/// the middle of three rows split by `centering_percentages(percent_y)`,
/// then the middle of three columns of that row split by
/// `centering_percentages(percent_x)`, as ratatui lays them out. It lies
/// within `r`.
pub fn centered_rect(percent_x: u16, percent_y: u16, r: Area) -> (c: Area)
    requires
        percent_x <= 100,
        percent_y <= 100,
    ensures
        c == centered_area(percent_x, percent_y, r),
        r.x <= c.x,
        c.x + c.width <= far_edge(r.x, r.width),
        r.y <= c.y,
        c.y + c.height <= far_edge(r.y, r.height),
{
    let (top, middle, bottom) = centering_percentages(percent_y);
    let rows = split_by_percent(true, top, middle, bottom, r);
    let row = middle_segment(&rows);
    let (left, center, right) = centering_percentages(percent_x);
    let cols = split_by_percent(false, left, center, right, row);
    assert(segment_of(rows@[1], r, true));
    assert(segment_of(cols@[1], rows@[1], false));
    middle_segment(&cols)
}

/// The area `centered_rect` picks: the middle of the three rows that ratatui
/// makes of `r` with `centering_percentages(percent_y)`, then the middle of
/// the three columns it makes of that row with
/// `centering_percentages(percent_x)`.
pub open spec fn centered_area(percent_x: u16, percent_y: u16, r: Area) -> Area {
    let side_y = ((100 - percent_y) / 2) as u16;
    let side_x = ((100 - percent_x) / 2) as u16;
    let row = percent_split(true, side_y, percent_y, side_y, r)[1];
    percent_split(false, side_x, percent_x, side_x, row)[1]
}

/// Where a block of `content_height` lines goes to be centred vertically in
/// `area`: same columns, `content_height` rows, starting half the leftover
/// height below the top (rounding as integer halves do).
pub open spec fn centered_rows(area: Area, content_height: u16) -> Area {
    Area {
        y: (area.y + centered_rows_offset(area, content_height)) as u16,
        height: content_height,
        ..area
    }
}

/// Half of `area`'s height less half of `content_height`, or zero.
pub open spec fn centered_rows_offset(area: Area, content_height: u16) -> int {
    let half = area.height / 2;
    let half_content = content_height / 2;
    if half >= half_content {
        half - half_content
    } else {
        0
    }
}

/// Places a block of `content_height` lines centred vertically in `area`.
pub fn center_vertically(area: Area, content_height: u16) -> (c: Area)
    requires
        area.y + centered_rows_offset(area, content_height) <= u16::MAX,
    ensures
        c == centered_rows(area, content_height),
{
    let offset = (area.height / 2).saturating_sub(content_height / 2);
    Area { y: area.y + offset, height: content_height, ..area }
}

/// The one-row area second from the bottom of `area`, starting at column 1.
pub open spec fn footer_row(area: Area) -> Area {
    Area { y: (area.y + area.height - 2) as u16, x: 1, height: 1, ..area }
}

/// The row for the help hint on the title page.
pub fn footer_area(area: Area) -> (f: Area)
    requires
        2 <= area.y + area.height <= u16::MAX,
    ensures
        f == footer_row(area),
{
    Area { y: area.y + area.height - 2, x: 1, height: 1, ..area }
}

/// The one-row area just below `above`, in which a message of `len` bytes
/// is centred in the width of `area`.
pub open spec fn message_row(area: Area, above: Area, len: usize) -> Area {
    Area {
        y: (above.y + above.height) as u16,
        x: ((area.width - (len as u16)) / 2) as u16,
        height: 1,
        ..area
    }
}

/// The row for the error message under the error art.
pub fn message_area(area: Area, above: Area, len: usize) -> (m: Area)
    requires
        above.y + above.height <= u16::MAX,
        (len as u16) <= area.width,
    ensures
        m == message_row(area, above, len),
{
    let w = len as u16;
    Area { y: above.y + above.height, x: (area.width - w) / 2, height: 1, ..area }
}

/// The width left for text in the URL box: its width less the borders and
/// the cursor, never below zero.
pub open spec fn text_width(box_width: u16) -> u16 {
    if box_width >= 3 {
        (box_width - 3) as u16
    } else {
        0
    }
}

/// The width left for text in the URL box.
pub fn input_text_width(box_width: u16) -> (w: u16)
    ensures
        w == text_width(box_width),
{
    if box_width >= 3 {
        box_width - 3
    } else {
        0
    }
}

/// The terminal cell of the cursor in the URL box: one column in from the
/// left border plus the cursor's offset past the scroll (zero if the cursor
/// is left of it), on the box's second row.
pub open spec fn cursor_cell(input_area: Area, cursor: usize, scroll: usize) -> (u16, u16) {
    let column = if cursor >= scroll {
        cursor - scroll + 1
    } else {
        1
    };
    ((input_area.x + (column as u16)) as u16, (input_area.y + 1) as u16)
}

/// The terminal cell of the cursor in the URL box.
pub fn cursor_position(input_area: Area, cursor: usize, scroll: usize) -> (p: (u16, u16))
    requires
        !(cursor == usize::MAX && scroll == 0),
        input_area.x + ((if cursor >= scroll {
            cursor - scroll + 1
        } else {
            1
        }) as u16) <= u16::MAX,
        input_area.y + 1 <= u16::MAX,
    ensures
        p == cursor_cell(input_area, cursor, scroll),
{
    let shown = if cursor > scroll {
        cursor
    } else {
        scroll
    };
    let x = shown - scroll + 1;
    (input_area.x + x as u16, input_area.y + 1)
}

/// The number of characters in a displayed line.
pub open spec fn spans_width(spans: Seq<(Seq<char>, TextStyle)>) -> nat
    decreases spans.len(),
{
    if spans.len() == 0 {
        0
    } else {
        spans_width(spans.drop_last()) + spans.last().0.len()
    }
}

/// The rows a line of `w` characters takes in `width` columns: one if it is
/// empty, else its width cut to 16 bits, divided by `width` and rounded up.
pub open spec fn rows_of(w: int, width: u16) -> int {
    if w == 0 {
        1
    } else {
        let t = (w as u16) as int;
        if t % (width as int) == 0 {
            t / (width as int)
        } else {
            t / (width as int) + 1
        }
    }
}

/// The rows that `lines` take in `width` columns.
pub open spec fn wrapped_height(lines: Seq<Seq<(Seq<char>, TextStyle)>>, width: u16) -> int
    decreases lines.len(),
{
    if lines.len() == 0 {
        0
    } else {
        wrapped_height(lines.drop_last(), width) + rows_of(spans_width(lines.last()) as int, width)
    }
}

/// Every line of `lines` has at most `usize::MAX` characters.
pub open spec fn widths_fit(lines: Seq<Seq<(Seq<char>, TextStyle)>>) -> bool {
    forall|i: int| 0 <= i < lines.len() ==> spans_width(#[trigger] lines[i]) <= usize::MAX
}

/// Some line of `lines` has characters.
pub open spec fn some_text(lines: Seq<Seq<(Seq<char>, TextStyle)>>) -> bool {
    exists|i: int| 0 <= i < lines.len() && spans_width(#[trigger] lines[i]) > 0
}

proof fn lemma_wrapped_height_prefix(lines: Seq<Seq<(Seq<char>, TextStyle)>>, width: u16, i: int)
    requires
        0 <= i <= lines.len(),
        width > 0 || !some_text(lines),
    ensures
        wrapped_height(lines.take(i), width) <= wrapped_height(lines, width),
    decreases lines.len(),
{
    if i < lines.len() {
        if width == 0 {
            assert(!some_text(lines.drop_last())) by {
                if some_text(lines.drop_last()) {
                    let k = choose|k: int|
                        0 <= k < lines.drop_last().len() && spans_width(
                            #[trigger] lines.drop_last()[k],
                        ) > 0;
                    assert(lines[k] == lines.drop_last()[k]);
                }
            }
            assert(spans_width(lines.last()) == 0) by {
                if spans_width(lines.last()) > 0 {
                    assert(lines[lines.len() - 1] == lines.last());
                }
            }
        }
        lemma_wrapped_height_prefix(lines.drop_last(), width, i);
        assert(lines.drop_last().take(i) == lines.take(i));
    } else {
        assert(lines.take(i) == lines);
    }
}

/// The rows that `lines` take once wrapped to `width` columns, or `None`
/// where counting them overflows or divides by a zero width.
pub fn checked_wrapped_height(lines: &Vec<TextLine>, width: u16) -> (h: Option<u16>)
    ensures
        h is Some <==> ((width > 0 || !some_text(text_lines_view(lines@))) && widths_fit(
            text_lines_view(lines@),
        ) && wrapped_height(text_lines_view(lines@), width) <= u16::MAX),
        h matches Some(v) ==> v == wrapped_height(text_lines_view(lines@), width),
{
    let ghost all = text_lines_view(lines@);
    let mut total_height: u16 = 0;
    let n = lines.len();
    for i in 0..n
        invariant
            n == all.len(),
            all == text_lines_view(lines@),
            total_height == wrapped_height(all.take(i as int), width),
            forall|k: int| 0 <= k < i ==> spans_width(#[trigger] all[k]) <= usize::MAX,
            width == 0 ==> forall|k: int| 0 <= k < i ==> spans_width(#[trigger] all[k]) == 0,
    {
        let ghost pre = all.take(i + 1);
        assert(pre.drop_last() == all.take(i as int));
        let line = &lines[i];
        let ghost spans = text_line_view(*line);
        assert(pre.last() == spans);
        assert(all[i as int] == spans);
        let m = line.spans.len();
        let mut line_width: usize = 0;
        for j in 0..m
            invariant
                m == spans.len(),
                spans == text_line_view(*line),
                all == text_lines_view(lines@),
                all[i as int] == spans,
                i < all.len(),
                line_width == spans_width(spans.take(j as int)),
        {
            assert(spans.take(j + 1).drop_last() == spans.take(j as int));
            assert(spans.take(j + 1).last() == spans[j as int]);
            let w = line.spans[j].text.as_str().unicode_len();
            assert(w == spans[j as int].0.len());
            match line_width.checked_add(w) {
                Some(sum) => {
                    line_width = sum;
                },
                None => {
                    proof {
                        lemma_spans_width_prefix(spans, j + 1);
                        assert(!widths_fit(all));
                    }
                    return None;
                },
            }
        }
        assert(spans.take(m as int) == spans);
        let rows: u16 = if line_width == 0 {
            1
        } else {
            if width == 0 {
                assert(some_text(all));
                return None;
            }
            let t = #[verifier::truncate] (line_width as u16);
            if t % width == 0 {
                t / width
            } else {
                assert(t / width < 65535) by (nonlinear_arith)
                    requires
                        t % width != 0,
                        width > 0,
                        t <= 65535,
                ;
                t / width + 1
            }
        };
        match total_height.checked_add(rows) {
            Some(sum) => {
                total_height = sum;
            },
            None => {
                proof {
                    if width > 0 || !some_text(all) {
                        lemma_wrapped_height_prefix(all, width, i + 1);
                    }
                }
                return None;
            },
        }
    }
    assert(all.take(n as int) == all);
    proof {
        if width == 0 {
            assert(!some_text(all));
        }
    }
    Some(total_height)
}

/// The rows that `lines` take once wrapped to `width` columns.
pub fn calculate_wrapped_height(lines: &Vec<TextLine>, width: u16) -> (h: u16)
    requires
        width > 0 || !some_text(text_lines_view(lines@)),
        widths_fit(text_lines_view(lines@)),
        wrapped_height(text_lines_view(lines@), width) <= u16::MAX,
    ensures
        h == wrapped_height(text_lines_view(lines@), width),
{
    match checked_wrapped_height(lines, width) {
        Some(h) => h,
        None => 0,
    }
}

proof fn lemma_spans_width_prefix(spans: Seq<(Seq<char>, TextStyle)>, j: int)
    requires
        0 <= j <= spans.len(),
    ensures
        spans_width(spans.take(j)) <= spans_width(spans),
    decreases spans.len(),
{
    if j < spans.len() {
        lemma_spans_width_prefix(spans.drop_last(), j);
        assert(spans.drop_last().take(j) == spans.take(j));
    } else {
        assert(spans.take(j) == spans);
    }
}

/// The width of a displayed line counts characters, not bytes: a single
/// piece of text is as wide as its number of characters, and the widths of
/// two runs of pieces add up.
pub proof fn lemma_width_counts_chars(
    text: Seq<char>,
    style: TextStyle,
    a: Seq<(Seq<char>, TextStyle)>,
    b: Seq<(Seq<char>, TextStyle)>,
)
    ensures
        spans_width(seq![(text, style)]) == text.len(),
        spans_width(a + b) == spans_width(a) + spans_width(b),
    decreases b.len(),
{
    let one = seq![(text, style)];
    assert(one.drop_last() =~= Seq::<(Seq<char>, TextStyle)>::empty());
    assert(spans_width(one.drop_last()) == 0);
    assert(one.last() == (text, style));
    assert(spans_width(one) == text.len());
    if b.len() == 0 {
        assert(a + b =~= a);
    } else {
        lemma_width_counts_chars(text, style, a, b.drop_last());
        assert((a + b).drop_last() =~= a + b.drop_last());
        assert((a + b).last() == b.last());
    }
}

/// A line of one piece of `n` characters (`0 < n < 65536`) takes
/// `ceil(n / width)` rows.
pub proof fn lemma_one_piece_rows(text: Seq<char>, style: TextStyle, width: u16)
    requires
        0 < text.len() < 65536,
        width > 0,
    ensures
        wrapped_height(seq![seq![(text, style)]], width) == (text.len() + width - 1) / (
        width as int),
{
    lemma_width_counts_chars(text, style, seq![], seq![]);
    let lines = seq![seq![(text, style)]];
    assert(lines.drop_last() =~= Seq::<Seq<(Seq<char>, TextStyle)>>::empty());
    let n = text.len() as int;
    let w = width as int;
    assert(((n as u16) as int) == n);
    lemma_ceil_div(n, w);
    assert(lines.last() == seq![(text, style)]);
    assert(spans_width(lines.last()) == n);
    assert(wrapped_height(lines.drop_last(), width) == 0);
    assert(rows_of(n, width) == (if n % w == 0 {
        n / w
    } else {
        n / w + 1
    }));
    assert(wrapped_height(lines, width) == rows_of(spans_width(lines.last()) as int, width));
}

proof fn lemma_ceil_div(n: int, w: int)
    requires
        n > 0,
        w > 0,
    ensures
        (if n % w == 0 {
            n / w
        } else {
            n / w + 1
        }) == (n + w - 1) / w,
{
    let q = n / w;
    let r = n % w;
    vstd::arithmetic::div_mod::lemma_fundamental_div_mod(n, w);
    assert(0 <= r < w);
    assert(n == w * q + r);
    assert(w * q == q * w) by (nonlinear_arith);
    if r == 0 {
        vstd::arithmetic::div_mod::lemma_fundamental_div_mod_converse(n + w - 1, w, q, w - 1);
    } else {
        assert((q + 1) * w == q * w + w) by (nonlinear_arith);
        vstd::arithmetic::div_mod::lemma_fundamental_div_mod_converse(
            n + w - 1,
            w,
            q + 1,
            r - 1,
        );
    }
}

} // verus!
