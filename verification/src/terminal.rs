//! The ratatui and unicode-width items that the library reads.

use ratatui::buffer::{Buffer, Cell};
use ratatui::text::Text;
use ratatui::widgets::{Paragraph, Widget};
use unicode_width::UnicodeWidthStr;
use vstd::prelude::*;

use crate::geometry::Rect;

verus! {

#[verifier::external_type_specification]
#[verifier::external_body]
pub struct ExBuffer(Buffer);

/// The cells that a ratatui buffer holds, in storage order (row by row):
/// for each, whether it equals the empty cell, and its symbol.
pub uninterp spec fn buffer_cells(buf: Buffer) -> Seq<(bool, Seq<char>)>;

/// The area that a ratatui buffer covers, as `(x, y, width, height)`.
pub uninterp spec fn buffer_area(buf: Buffer) -> (u16, u16, u16, u16);

/// The display width in terminal columns that unicode-width gives a string.
pub uninterp spec fn str_width(s: Seq<char>) -> usize;

/// Reads the `area` field of a ratatui `Buffer`.
#[verifier::external_body]
pub(crate) fn area_of(buf: &Buffer) -> (r: Rect)
    ensures
        r.parts() == buffer_area(*buf),
{
    Rect { x: buf.area.x, y: buf.area.y, width: buf.area.width, height: buf.area.height }
}

/// `Vec::len` of the `content` field of a ratatui `Buffer`.
#[verifier::external_body]
pub(crate) fn cell_count(buf: &Buffer) -> (n: usize)
    ensures
        n == buffer_cells(*buf).len(),
{
    buf.content.len()
}

/// ratatui's `Cell == Cell::EMPTY` on the cell stored at index `i` (the empty cell is
/// `Cell::default()`).
#[verifier::external_body]
pub(crate) fn cell_is_empty(buf: &Buffer, i: usize) -> (b: bool)
    requires
        i < buffer_cells(*buf).len(),
    ensures
        b == buffer_cells(*buf)[i as int].0,
{
    buf.content[i] == Cell::EMPTY
}

/// ratatui's `Cell::symbol` on the cell stored at index `i`.
#[verifier::external_body]
pub(crate) fn cell_symbol(buf: &Buffer, i: usize) -> (s: &str)
    requires
        i < buffer_cells(*buf).len(),
    ensures
        s@ == buffer_cells(*buf)[i as int].1,
{
    buf.content[i].symbol()
}

/// unicode-width's `UnicodeWidthStr::width`.
#[verifier::external_body]
pub(crate) fn display_width(s: &str) -> (w: usize)
    ensures
        w == str_width(s@),
{
    s.width()
}

#[verifier::external_type_specification]
#[verifier::external_body]
pub struct ExText<'a>(Text<'a>);

/// The lines that a ratatui `Text` holds, each as the contents of its spans.
pub uninterp spec fn text_lines(text: Text<'static>) -> Seq<Seq<Seq<char>>>;

/// Display width of a line: the sum of the widths of its spans.
pub open spec fn line_width(spans: Seq<Seq<char>>) -> int
    decreases spans.len(),
{
    if spans.len() == 0 {
        0
    } else {
        line_width(spans.drop_last()) + str_width(spans.last())
    }
}

/// Display width of a text: the width of its widest line, 0 when it has none.
pub open spec fn text_width_of(lines: Seq<Seq<Seq<char>>>) -> int
    decreases lines.len(),
{
    if lines.len() == 0 {
        0
    } else {
        let before = text_width_of(lines.drop_last());
        let last = line_width(lines.last());
        if last > before { last } else { before }
    }
}

/// Every line's width fits in `usize`.
pub open spec fn line_widths_fit(lines: Seq<Seq<Seq<char>>>) -> bool {
    forall|i: int| 0 <= i < lines.len() ==> line_width(#[trigger] lines[i]) <= usize::MAX
}

/// ratatui's `Text::width`: the largest `Line::width` of its lines, where a line's width is
/// the sum of the unicode widths of its spans' contents.
#[verifier::external_body]
pub(crate) fn text_width(text: &Text<'static>) -> (w: usize)
    requires
        line_widths_fit(text_lines(*text)),
    ensures
        w == text_width_of(text_lines(*text)),
{
    text.width()
}

/// ratatui's `Text::height`: the number of its lines.
#[verifier::external_body]
pub(crate) fn text_height(text: &Text<'static>) -> (h: usize)
    ensures
        h == text_lines(*text).len(),
{
    text.height()
}

/// The alignment of each line of a ratatui `Text`: 0 when the line sets none, 1 for left,
/// 2 for centre, 3 for right.
pub uninterp spec fn text_alignments(text: Text<'static>) -> Seq<u8>;

/// The symbols that ratatui's `Paragraph::new` (left-aligned unless a line says otherwise, not
/// wrapped, not scrolled) writes into an area `width` x `height` for lines with these span
/// contents and alignments: each as its column and row within the area, and the grapheme.
/// `None` when laying out a line overflows ratatui's 16-bit sum of the line's width.
pub uninterp spec fn paragraph_layout(
    lines: Seq<Seq<Seq<char>>>,
    alignments: Seq<u8>,
    width: u16,
    height: u16,
) -> Option<Seq<(u16, u16, Seq<char>)>>;

/// The symbols that `Paragraph::new(text)` writes into `rect`, with their places in it.
pub open spec fn text_layout(text: Text<'static>, rect: Rect) -> Option<Seq<(u16, u16, Seq<char>)>> {
    paragraph_layout(text_lines(text), text_alignments(text), rect.width, rect.height)
}

/// `v` cut to 16 bits, as a saturating addition gives it.
pub open spec fn sat16(v: int) -> int {
    if v <= 0xffff { v } else { 0xffff }
}

/// The position (`x`, `y`) lies in a buffer of area `area` (whose right and bottom edges
/// saturate at 65535, as ratatui's `Rect::right` and `Rect::bottom` do).
pub open spec fn in_buffer(area: (u16, u16, u16, u16), x: int, y: int) -> bool {
    &&& area.0 <= x < sat16(area.0 + area.2)
    &&& area.1 <= y < sat16(area.1 + area.3)
}

/// Every cell where `rect` and the buffer's area overlap is stored (the paragraph restyles
/// them all).
pub open spec fn overlap_cells_present(rect: Rect, area: (u16, u16, u16, u16), len: int) -> bool {
    let x1 = if rect.x >= area.0 { rect.x as int } else { area.0 as int };
    let y1 = if rect.y >= area.1 { rect.y as int } else { area.1 as int };
    let rx = sat16(rect.x + rect.width);
    let ax = sat16(area.0 + area.2);
    let ry = sat16(rect.y + rect.height);
    let ay = sat16(area.1 + area.3);
    let x2 = if rx <= ax { rx } else { ax };
    let y2 = if ry <= ay { ry } else { ay };
    x1 < x2 && y1 < y2 ==> cell_index(area, x2 - 1, y2 - 1) < len
}

/// `rect` is narrower than 32768 columns and lies in the buffer's area (whose right and bottom
/// edges saturate at 65535).
pub open spec fn rect_inside(rect: Rect, area: (u16, u16, u16, u16)) -> bool {
    &&& rect.width < 0x8000
    &&& area.0 <= rect.x && rect.x + rect.width <= sat16(area.0 + area.2)
    &&& area.1 <= rect.y && rect.y + rect.height <= sat16(area.1 + area.3)
}

/// The layout is defined and every grapheme of it, placed in `rect`, lies in the buffer.
pub open spec fn layout_fits(
    layout: Option<Seq<(u16, u16, Seq<char>)>>,
    rect: Rect,
    area: (u16, u16, u16, u16),
) -> bool {
    layout matches Some(l) && forall|k: int|
        0 <= k < l.len() ==> in_buffer(area, rect.x + (#[trigger] l[k]).0, rect.y + l[k].1)
}

/// The index in a buffer of area `area` of the cell at the position (`x`, `y`).
pub open spec fn cell_index(area: (u16, u16, u16, u16), x: int, y: int) -> int {
    (y - area.1) * area.2 + (x - area.0)
}

/// The cell at index `j` of a buffer of area `area` is written by a symbol of `layout` placed
/// in `rect`.
pub open spec fn placed_at(
    layout: Seq<(u16, u16, Seq<char>)>,
    rect: Rect,
    area: (u16, u16, u16, u16),
    j: int,
) -> bool {
    exists|k: int|
        0 <= k < layout.len() && cell_index(area, rect.x + (#[trigger] layout[k]).0, rect.y
            + layout[k].1) == j
}

/// The cells `after` are the cells `before` of a buffer of area `area` once `layout` is written
/// into `rect`: every place of the layout lies in `rect` and its cell holds the layout's
/// grapheme (never the empty string) as its symbol; every other cell is as it was.
pub open spec fn paragraph_written(
    after: Seq<(bool, Seq<char>)>,
    before: Seq<(bool, Seq<char>)>,
    area: (u16, u16, u16, u16),
    rect: Rect,
    layout: Option<Seq<(u16, u16, Seq<char>)>>,
) -> bool {
    layout matches Some(l) && {
        &&& forall|k: int|
            0 <= k < l.len() ==> (#[trigger] l[k]).0 < rect.width && l[k].1 < rect.height
                && l[k].2.len() > 0 && after[cell_index(area, rect.x + l[k].0, rect.y
                + l[k].1)].1 == l[k].2
        &&& forall|j: int|
            0 <= j < before.len() && !placed_at(l, rect, area, j) ==> #[trigger] after[j]
                == before[j]
    }
}

/// ratatui's `Widget::render` of `Paragraph::new(text)` into `rect` of `buf`. It panics (by
/// indexing outside the buffer's cells, or by overflowing a 16-bit column) unless the cells
/// where `rect` overlaps the buffer are stored and either the layout is defined with every
/// grapheme it places landing in the buffer, or `rect` lies in the buffer and is narrower than
/// 32768 columns (a line then never overflows the 16-bit sum of its widths, so the layout is
/// defined, and every grapheme lands inside `rect`). The paragraph's own style is the default
/// one, so it leaves every cell alone but those where it writes a grapheme: those are the places
/// that `paragraph_layout` gives, all inside `rect`, and each such cell's symbol becomes that
/// grapheme, which is never the empty string. What the graphemes' styles do to those cells is
/// not stated. The buffer's area and number of cells stay as they were.
#[verifier::external_body]
pub(crate) fn render_paragraph(text: Text<'static>, rect: Rect, buf: &mut Buffer)
    requires
        overlap_cells_present(rect, buffer_area(*old(buf)), buffer_cells(*old(buf)).len() as int),
        layout_fits(
            paragraph_layout(text_lines(text), text_alignments(text), rect.width, rect.height),
            rect,
            buffer_area(*old(buf)),
        ) || rect_inside(rect, buffer_area(*old(buf))),
    ensures
        buffer_area(*final(buf)) == buffer_area(*old(buf)),
        buffer_cells(*final(buf)).len() == buffer_cells(*old(buf)).len(),
        paragraph_written(
            buffer_cells(*final(buf)),
            buffer_cells(*old(buf)),
            buffer_area(*old(buf)),
            rect,
            paragraph_layout(text_lines(text), text_alignments(text), rect.width, rect.height),
        ),
{
    let area = ratatui::layout::Rect { x: rect.x, y: rect.y, width: rect.width, height: rect.height };
    Paragraph::new(text).render(area, buf);
}

/// ratatui's `Buffer::filled` over the area (0, 0, `width`, `height`) with `Cell::new("")`:
/// `width * height` cells whose symbol is the empty string (so none equals the empty cell,
/// whose symbol is a space).
#[verifier::external_body]
pub(crate) fn blank_buffer(width: u16, height: u16) -> (b: Buffer)
    ensures
        buffer_area(b) == (0u16, 0u16, width, height),
        buffer_cells(b) == Seq::new(
            (width * height) as nat,
            |j: int| (false, Seq::<char>::empty()),
        ),
{
    Buffer::filled(ratatui::layout::Rect { x: 0, y: 0, width, height }, Cell::new(""))
}

/// `Clone::clone` of a ratatui `Text`: the copy holds the same lines, spans and alignments.
#[verifier::external_body]
pub(crate) fn clone_text(text: &Text<'static>) -> (c: Text<'static>)
    ensures
        text_lines(c) == text_lines(*text),
        text_alignments(c) == text_alignments(*text),
{
    text.clone()
}

/// The number of lines of a ratatui `Text` (its `lines` field's length).
#[verifier::external_body]
pub(crate) fn line_count(text: &Text<'static>) -> (n: usize)
    ensures
        n == text_lines(*text).len(),
{
    text.lines.len()
}

/// The number of spans of line `i` of a ratatui `Text`.
#[verifier::external_body]
pub(crate) fn span_count(text: &Text<'static>, i: usize) -> (n: usize)
    requires
        i < text_lines(*text).len(),
    ensures
        n == text_lines(*text)[i as int].len(),
{
    text.lines[i].spans.len()
}

/// The content of span `j` of line `i` of a ratatui `Text`.
#[verifier::external_body]
pub(crate) fn span_content<'a>(text: &'a Text<'static>, i: usize, j: usize) -> (s: &'a str)
    requires
        i < text_lines(*text).len(),
        j < text_lines(*text)[i as int].len(),
    ensures
        s@ == text_lines(*text)[i as int][j as int],
{
    text.lines[i].spans[j].content.as_ref()
}

} // verus!
