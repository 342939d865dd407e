//! What the renderer reads back from its cell buffer.

use ratatui::buffer::Buffer;
use ratatui::text::Text;
use vstd::prelude::*;

use crate::terminal::{
    area_of, buffer_area, buffer_cells, cell_count, cell_is_empty, cell_symbol, display_width,
    line_widths_fit, render_paragraph, str_width, text_height, text_lines, text_width,
    text_width_of, line_width, line_count, span_count, span_content, text_layout,
    paragraph_written, overlap_cells_present, layout_fits, in_buffer, sat16, cell_index,
    placed_at, blank_buffer, clone_text, text_alignments, paragraph_layout,
};
use crate::geometry::Rect;

verus! {

/// Index of the last cell that is not the empty cell, if any.
pub open spec fn last_filled(cells: Seq<(bool, Seq<char>)>) -> Option<int>
    decreases cells.len(),
{
    if cells.len() == 0 {
        None
    } else if !cells.last().0 {
        Some(cells.len() - 1)
    } else {
        last_filled(cells.drop_last())
    }
}

/// ratatui's `Buffer::pos_of`: the coordinates of the cell stored at index `i`
/// (the index is first truncated to 16 bits).
pub open spec fn position_of(area: (u16, u16, u16, u16), i: int) -> (int, int) {
    (area.0 + (i % 0x10000) % (area.2 as int), area.1 + (i % 0x10000) / (area.2 as int))
}

/// `position_of` is defined without overflow and division by zero.
pub open spec fn position_fits(area: (u16, u16, u16, u16), i: int) -> bool {
    &&& area.2 != 0
    &&& position_of(area, i).0 <= u16::MAX
    &&& position_of(area, i).1 <= u16::MAX
}

/// The position found for a cell maps back to that cell: in a buffer `w > 0` columns wide
/// holding fewer than 65536 cells, the position (x, y) of the last non-empty cell lies within
/// the row (`area.x <= x < area.x + w`) and `(y - area.y) * w + (x - area.x)` is its storage
/// index.
pub proof fn law_last_position_maps_back(buf: Buffer)
    requires
        buffer_area(buf).2 > 0,
        buffer_cells(buf).len() < 0x10000,
    ensures
        last_filled(buffer_cells(buf)) matches Some(i) && ({
            let area = buffer_area(buf);
            let p = position_of(area, i);
            &&& area.0 <= p.0 < area.0 + area.2
            &&& area.1 <= p.1
            &&& (p.1 - area.1) * area.2 + (p.0 - area.0) == i
        }) || last_filled(buffer_cells(buf)) is None,
{
    law_last_filled_is_last(buffer_cells(buf));
    if let Some(i) = last_filled(buffer_cells(buf)) {
        let area = buffer_area(buf);
        let w = area.2 as int;
        assert(i % 0x10000 == i);
        vstd::arithmetic::div_mod::lemma_fundamental_div_mod(i, w);
        vstd::arithmetic::div_mod::lemma_mod_bound(i, w);
        vstd::arithmetic::div_mod::lemma_div_pos_is_pos(i, w);
        assert((i / w) * w == w * (i / w)) by (nonlinear_arith);
    }
}

/// Position of the last cell of `buf` that is not empty, or `None` if every cell is empty.
pub fn find_last_buffer_cell_index(buf: &Buffer) -> (r: Option<(u16, u16)>)
    requires
        last_filled(buffer_cells(*buf)) matches Some(i) ==> position_fits(buffer_area(*buf), i),
    ensures
        r == (match last_filled(buffer_cells(*buf)) {
            None => None,
            Some(i) => Some(
                (position_of(buffer_area(*buf), i).0 as u16, position_of(buffer_area(*buf), i).1 as u16),
            ),
        }),
{
    let ghost cells = buffer_cells(*buf);
    let n = cell_count(buf);
    let mut k = n;
    assert(cells.take(n as int) =~= cells);
    while k > 0
        invariant
            k <= n,
            last_filled(cells) matches Some(i) ==> position_fits(buffer_area(*buf), i),
            n == cells.len(),
            cells == buffer_cells(*buf),
            last_filled(cells) == last_filled(cells.take(k as int)),
        decreases k,
    {
        if !cell_is_empty(buf, k - 1) {
            assert(cells.take(k as int).drop_last() =~= cells.take(k - 1));
            let area = area_of(buf);
            let t: u16 = ((k - 1) % 0x10000) as u16;
            assert(last_filled(cells) == Some((k - 1) as int));
            return Some((area.x + t % area.width, area.y + t / area.width));
        }
        assert(cells.take(k as int).drop_last() =~= cells.take(k - 1));
        k = k - 1;
    }
    assert(cells.take(0) =~= Seq::<(bool, Seq<char>)>::empty());
    None
}

/// The rightmost column `x` with `left <= x < x_end` of row `y` whose cell is not empty, or -1
/// if there is none. Cells are stored row by row, `width` to a row; the cell of column `x` is
/// the `x - left`-th of its row (`left` is the column of the buffer's left edge).
pub open spec fn rightmost_filled(
    cells: Seq<(bool, Seq<char>)>,
    width: int,
    left: int,
    y: int,
    x_end: int,
) -> int
    decreases x_end,
{
    if x_end <= 0 || x_end <= left {
        -1
    } else if !cells[y * width + x_end - 1 - left].0 {
        x_end - 1
    } else {
        rightmost_filled(cells, width, left, y, x_end - 1)
    }
}

/// The largest column below `width` of a non-empty cell in the rows `0..rows`, or 0 if there
/// is none.
pub open spec fn widest_filled(cells: Seq<(bool, Seq<char>)>, width: int, left: int, rows: int) -> int
    decreases rows,
{
    if rows <= 0 {
        0
    } else {
        let before = widest_filled(cells, width, left, rows - 1);
        let here = rightmost_filled(cells, width, left, rows - 1, width);
        if here > before { here } else { before }
    }
}

/// `find_widest_cell` can scan the rows `0..last_y` without leaving the buffer: the buffer's
/// top is row 0 and it has at least `last_y` rows and enough cells; and, when its left edge is
/// not column 0, the scan of every row stops (on a non-empty cell further right than any
/// found before) before it reaches a column left of the edge.
pub open spec fn rows_readable(
    cells: Seq<(bool, Seq<char>)>,
    area: (u16, u16, u16, u16),
    last_y: int,
) -> bool {
    let left = area.0 as int;
    let width = area.2 as int;
    last_y == 0 || width == 0 || {
        &&& area.1 == 0
        &&& last_y <= area.3
        &&& last_y * width - left <= cells.len()
        &&& (left == 0 || forall|y: int|
            0 <= y < last_y ==> #[trigger] rightmost_filled(cells, width, left, y, width)
                > widest_filled(cells, width, left, y))
    }
}

proof fn lemma_rightmost_below(cells: Seq<(bool, Seq<char>)>, width: int, left: int, y: int, x_end: int)
    ensures
        -1 <= rightmost_filled(cells, width, left, y, x_end),
        rightmost_filled(cells, width, left, y, x_end) < x_end || rightmost_filled(
            cells,
            width,
            left,
            y,
            x_end,
        ) == -1,
        rightmost_filled(cells, width, left, y, x_end) >= 0 ==> rightmost_filled(
            cells,
            width,
            left,
            y,
            x_end,
        ) >= left,
    decreases x_end,
{
    if x_end > 0 && x_end > left {
        lemma_rightmost_below(cells, width, left, y, x_end - 1);
    }
}

proof fn lemma_widest_bounds(cells: Seq<(bool, Seq<char>)>, width: int, left: int, rows: int)
    requires
        width >= 1,
    ensures
        0 <= widest_filled(cells, width, left, rows) < width,
    decreases rows,
{
    if rows > 0 {
        lemma_widest_bounds(cells, width, left, rows - 1);
        lemma_rightmost_below(cells, width, left, rows - 1, width);
    }
}

proof fn lemma_cell_index_bound(x: int, y: int, w: int, left: int, rows: int, len: int)
    requires
        left <= x < w,
        0 <= left,
        0 <= y < rows,
        rows * w - left <= len,
    ensures
        0 <= y * w + x - left < len,
{
    assert(y * w + x < rows * w) by (nonlinear_arith)
        requires
            0 <= x < w,
            0 <= y < rows,
    ;
    assert(0 <= y * w) by (nonlinear_arith)
        requires
            0 <= y,
            0 <= w,
    ;
}

/// One more than the largest column, over the rows `0..last_y`, that holds a non-empty cell
/// (1 when there is none): the number of columns the rendered text occupies.
pub fn find_widest_cell(buf: &Buffer, last_y: u16) -> (r: u16)
    requires
        rows_readable(buffer_cells(*buf), buffer_area(*buf), last_y as int),
    ensures
        r == widest_filled(
            buffer_cells(*buf),
            buffer_area(*buf).2 as int,
            buffer_area(*buf).0 as int,
            last_y as int,
        ) + 1,
{
    let ghost cells = buffer_cells(*buf);
    let area = area_of(buf);
    let n = cell_count(buf);
    let ghost len = cells.len() as int;
    let ghost w = area.width as int;
    let ghost left = area.x as int;
    let mut widest: u16 = 0;
    let mut y: u16 = 0;
    while y < last_y
        invariant
            cells == buffer_cells(*buf),
            len == cells.len(),
            len == n,
            area.parts() == buffer_area(*buf),
            w == area.width,
            left == area.x,
            rows_readable(cells, area.parts(), last_y as int),
            y <= last_y,
            widest < area.width || widest == 0,
            widest == widest_filled(cells, w, left, y as int),
        decreases last_y - y,
    {
        let ghost before = widest as int;
        let ghost target = rightmost_filled(cells, w, left, y as int, w);
        assert(left > 0 && w > 0 ==> target > before);
        let mut x: u16 = area.width;
        let mut found = false;
        while x > 0 && !found
            invariant
                cells == buffer_cells(*buf),
                len == cells.len(),
                len == n,
                area.parts() == buffer_area(*buf),
                w == area.width,
                left == area.x,
                rows_readable(cells, area.parts(), last_y as int),
                y < last_y,
                x <= area.width,
                target == rightmost_filled(cells, w, left, y as int, w),
                left > 0 && w > 0 ==> target > before,
                before == widest_filled(cells, w, left, y as int),
                before < area.width || before == 0,
                !found ==> widest == before,
                !found ==> ({
                    let now = rightmost_filled(cells, w, left, y as int, x as int);
                    (if target > before { target } else { before }) == (if now > before {
                        now
                    } else {
                        before
                    })
                }),
                found ==> widest == widest_filled(cells, w, left, y + 1),
                found ==> widest < area.width,
            decreases x,
        {
            proof {
                lemma_rightmost_below(cells, w, left, y as int, x as int);
                lemma_rightmost_below(cells, w, left, y as int, w);
            }
            x = x - 1;
            proof {
                lemma_cell_index_bound(x as int, y as int, w, left, last_y as int, len);
            }
            let idx: usize = y as usize * area.width as usize + (x - area.x) as usize;
            proof {
                lemma_rightmost_below(cells, w, left, y as int, x as int);
            }
            if !cell_is_empty(buf, idx) && x > widest {
                widest = x;
                found = true;
            }
        }
        y = y + 1;
    }
    widest + 1
}

/// Terminal width of the symbol of the cell stored at index `i`.
pub open spec fn symbol_width(buf: Buffer, i: int) -> int {
    str_width(buffer_cells(buf)[i].1) as int
}

/// No wide symbol covers the cell at index `i`: the last cell before it whose symbol has a
/// width, if there is one, has width 1. (A wide symbol covers only the next cell that has a
/// width, whatever that cell's own width.)
pub open spec fn uncovered(buf: Buffer, i: int) -> bool {
    forall|j: int|
        0 <= j < i && symbol_width(buf, j) != 0 && (forall|k: int|
            j < k < i ==> symbol_width(buf, k) == 0) ==> #[trigger] symbol_width(buf, j) == 1
}

/// The cell at index `i` starts a symbol on the screen: its symbol has a width and no wide
/// symbol before it covers it.
pub open spec fn starts_symbol(buf: Buffer, i: int) -> bool {
    symbol_width(buf, i) != 0 && uncovered(buf, i)
}

/// The count of further cells with a width that a wide symbol still covers when a left-to-right
/// scan reaches index `i`: after a cell whose symbol has width `w > 0` it is `w - 1`, and cells
/// with zero-width symbols leave it unchanged.
spec fn covered_before(buf: Buffer, i: int) -> int
    decreases i,
{
    if i <= 0 {
        0
    } else if symbol_width(buf, i - 1) == 0 {
        covered_before(buf, i - 1)
    } else {
        symbol_width(buf, i - 1) - 1
    }
}

/// The scan's count is zero exactly where no wide symbol covers the cell.
proof fn lemma_covered_iff_uncovered(buf: Buffer, i: int)
    requires
        i >= 0,
    ensures
        (covered_before(buf, i) == 0) == uncovered(buf, i),
    decreases i,
{
    if i > 0 {
        lemma_covered_iff_uncovered(buf, i - 1);
        if symbol_width(buf, i - 1) == 0 {
            if uncovered(buf, i - 1) {
                assert forall|j: int|
                    0 <= j < i && symbol_width(buf, j) != 0 && (forall|k: int|
                        j < k < i ==> symbol_width(buf, k) == 0) implies #[trigger] symbol_width(
                    buf,
                    j,
                ) == 1 by {
                    assert(j < i - 1);
                    assert forall|k: int| j < k < i - 1 implies symbol_width(buf, k) == 0 by {}
                }
            } else {
                let j = choose|j: int|
                    !(0 <= j < i - 1 && symbol_width(buf, j) != 0 && (forall|k: int|
                        j < k < i - 1 ==> symbol_width(buf, k) == 0) ==> #[trigger] symbol_width(
                        buf,
                        j,
                    ) == 1);
                assert forall|k: int| j < k < i implies symbol_width(buf, k) == 0 by {
                    if k < i - 1 {
                    }
                }
                assert(!uncovered(buf, i));
            }
        } else {
            if symbol_width(buf, i - 1) == 1 {
                assert forall|j: int|
                    0 <= j < i && symbol_width(buf, j) != 0 && (forall|k: int|
                        j < k < i ==> symbol_width(buf, k) == 0) implies #[trigger] symbol_width(
                    buf,
                    j,
                ) == 1 by {
                    if j < i - 1 {
                        assert(symbol_width(buf, i - 1) == 0);
                    }
                }
            } else {
                assert(!uncovered(buf, i)) by {
                    assert(symbol_width(buf, i - 1) != 1);
                }
            }
        }
    }
}

/// Saturating `a - b` on 16-bit values.
pub open spec fn sat_sub16(a: int, b: int) -> int {
    if a >= b { a - b } else { 0 }
}

/// Saturating `a + b` on 16-bit values.
pub open spec fn sat_add16(a: int, b: int) -> int {
    if a + b <= u16::MAX { a + b } else { u16::MAX as int }
}

/// The last row that an image placed in `r` reaches (0 without an image).
pub open spec fn image_bottom(skip_rect: Option<Rect>) -> int {
    match skip_rect {
        None => 0,
        Some(r) => sat_sub16(sat_add16(r.y as int, r.height as int), 1),
    }
}

/// `(x, y)` lies outside the rectangle `r`.
pub open spec fn outside(r: Rect, x: int, y: int) -> bool {
    x < r.x || x >= r.x + r.width || y < r.y || y >= r.y + r.height
}

/// Testing `outside(r, x, y)` left to right, with 16-bit sums, would overflow.
pub open spec fn outside_test_overflows(r: Rect, x: int, y: int) -> bool {
    x >= r.x && (r.x + r.width > u16::MAX || (x < r.x + r.width && y >= r.y && r.y + r.height
        > u16::MAX))
}

/// `(x, y)` is within the columns and rows that are written to the console.
pub open spec fn in_view(x: int, y: int, last_x: int, last_y: int, term_width: int) -> bool {
    x < last_x && x < term_width && y <= last_y
}

/// The cell at index `i` is sent to the console.
pub open spec fn drawn(
    buf: Buffer,
    last_x: u16,
    last_y: u16,
    skip_rect: Option<Rect>,
    term_width: u16,
    i: int,
) -> bool {
    let p = position_of(buffer_area(buf), i);
    &&& starts_symbol(buf, i)
    &&& in_view(p.0, p.1, last_x as int, last_y as int, term_width as int)
    &&& (skip_rect matches Some(r) ==> outside(r, p.0, p.1))
}

/// The terminal row at which buffer row 0 is printed.
pub open spec fn starting_row(cursor_y: u16, last_y: u16) -> int {
    sat_sub16(sat_sub16(cursor_y as int, last_y as int), 1)
}

/// The cells among the first `n` that are sent to the console, in storage order, each as
/// `(column, terminal row, index)`.
pub open spec fn drawn_cells(
    buf: Buffer,
    last_x: u16,
    last_y: u16,
    skip_rect: Option<Rect>,
    term_width: u16,
    start: int,
    n: int,
) -> Seq<(u16, u16, usize)>
    decreases n,
{
    if n <= 0 {
        Seq::empty()
    } else {
        let before = drawn_cells(buf, last_x, last_y, skip_rect, term_width, start, n - 1);
        if drawn(buf, last_x, last_y, skip_rect, term_width, n - 1) {
            let p = position_of(buffer_area(buf), n - 1);
            before.push((p.0 as u16, (p.1 + start) as u16, (n - 1) as usize))
        } else {
            before
        }
    }
}

/// Choosing the cells to draw neither divides by zero nor overflows a 16-bit coordinate.
pub open spec fn console_safe(
    buf: Buffer,
    last_x: u16,
    last_y: u16,
    skip_rect: Option<Rect>,
    term_width: u16,
) -> bool {
    forall|i: int|
        0 <= i < buffer_cells(buf).len() && #[trigger] starts_symbol(buf, i) ==> {
            let p = position_of(buffer_area(buf), i);
            &&& position_fits(buffer_area(buf), i)
            &&& in_view(p.0, p.1, last_x as int, last_y as int, term_width as int) ==> (
            skip_rect matches Some(r) ==> !outside_test_overflows(r, p.0, p.1))
        }
}

/// What is written to the console: the row at which the buffer starts, and the cells drawn,
/// each as `(column, terminal row, index of the cell in the buffer)`.
pub struct ConsolePlan {
    pub starting_pos: u16,
    pub cells: Vec<(u16, u16, usize)>,
}

/// Chooses the cells of `buf` to draw once the console has scrolled: every cell that starts a
/// symbol (skipping zero-width cells and the cells that a wide symbol covers), lies left of
/// `last_x` and of the terminal's width, at most at row `last_y`, and outside the image area
/// `skip_rect`; each is moved down to the row where the buffer starts, which is `last_y + 1`
/// rows above the cursor (or the top of the terminal).
pub fn console_cells(
    buf: &Buffer,
    last_x: u16,
    last_y: u16,
    skip_rect: Option<Rect>,
    term_width: u16,
    cursor_y: u16,
) -> (plan: ConsolePlan)
    requires
        console_safe(*buf, last_x, last_y, skip_rect, term_width),
    ensures
        plan.starting_pos == starting_row(cursor_y, last_y),
        plan.cells@ == drawn_cells(
            *buf,
            last_x,
            last_y,
            skip_rect,
            term_width,
            starting_row(cursor_y, last_y),
            buffer_cells(*buf).len() as int,
        ),
{
    let ghost cells = buffer_cells(*buf);
    let starting_pos = cursor_y.saturating_sub(last_y).saturating_sub(1);
    let ghost start = starting_pos as int;
    let n = cell_count(buf);
    let area = area_of(buf);
    let mut out: Vec<(u16, u16, usize)> = Vec::new();
    let mut skip_n: usize = 0;
    let mut i: usize = 0;
    while i < n
        invariant
            cells == buffer_cells(*buf),
            n == cells.len(),
            area.parts() == buffer_area(*buf),
            console_safe(*buf, last_x, last_y, skip_rect, term_width),
            start == starting_pos,
            start == starting_row(cursor_y, last_y),
            i <= n,
            skip_n == covered_before(*buf, i as int),
            out@ == drawn_cells(*buf, last_x, last_y, skip_rect, term_width, start, i as int),
        decreases n - i,
    {
        proof {
            lemma_covered_iff_uncovered(*buf, i as int);
        }
        let sym = cell_symbol(buf, i);
        let w = display_width(sym);
        if w != 0 {
            let old_skip = skip_n;
            skip_n = w - 1;
            if old_skip == 0 {
                assert(starts_symbol(*buf, i as int));
                let t: u16 = (i % 0x10000) as u16;
                let x: u16 = area.x + t % area.width;
                let y: u16 = area.y + t / area.width;
                if x < last_x && x < term_width && y <= last_y {
                    let keep = match skip_rect {
                        None => true,
                        Some(r) => x < r.x || x >= r.x + r.width || y < r.y || y >= r.y + r.height,
                    };
                    if keep {
                        out.push((x, y + starting_pos, i));
                    }
                }
            }
        }
        i = i + 1;
    }
    ConsolePlan { starting_pos, cells: out }
}

/// How much of the console the buffer's text and image take.
pub struct ConsoleExtent {
    /// Number of columns written (one past the widest non-empty cell).
    pub last_x: u16,
    /// The last row written.
    pub last_y: u16,
    /// Number of blank lines to print first, to make room for the output.
    pub blank_lines: usize,
}

/// The last row that output reaches when the last non-empty cell is at index `i`: that cell's
/// row, or the image's last row if it reaches further.
pub open spec fn output_last_row(buf: Buffer, skip_rect: Option<Rect>, i: int) -> int {
    let row = position_of(buffer_area(buf), i).1;
    if row >= image_bottom(skip_rect) { row } else { image_bottom(skip_rect) }
}

/// Finds the rows and columns the output takes: the row of the last non-empty cell, extended
/// to the last row of the image area `skip_rect`, and the number of columns up to the widest
/// non-empty cell above that row. The buffer must hold a non-empty cell.
pub fn console_extent(buf: &Buffer, skip_rect: Option<Rect>) -> (e: ConsoleExtent)
    requires
        last_filled(buffer_cells(*buf)) is Some,
        last_filled(buffer_cells(*buf)) matches Some(i) ==> {
            &&& position_fits(buffer_area(*buf), i)
            &&& rows_readable(buffer_cells(*buf), buffer_area(*buf), output_last_row(*buf, skip_rect, i))
        },
    ensures
        last_filled(buffer_cells(*buf)) matches Some(i) && {
            &&& e.last_y == output_last_row(*buf, skip_rect, i)
            &&& e.last_x == widest_filled(
                buffer_cells(*buf),
                buffer_area(*buf).2 as int,
                buffer_area(*buf).0 as int,
                e.last_y as int,
            ) + 1
            &&& e.blank_lines == e.last_y + 1
        },
{
    let last = find_last_buffer_cell_index(buf);
    let row = match last {
        Some((_, row)) => row,
        None => 0,
    };
    let bottom: u16 = match skip_rect {
        None => 0,
        Some(r) => r.y.saturating_add(r.height).saturating_sub(1),
    };
    let last_y = if row >= bottom { row } else { bottom };
    let last_x = find_widest_cell(buf, last_y);
    ConsoleExtent { last_x, last_y, blank_lines: last_y as usize + 1 }
}

/// Whether the buffer holds a cell that is not empty.
pub fn has_filled_cell(buf: &Buffer) -> (b: bool)
    ensures
        b == last_filled(buffer_cells(*buf)) is Some,
{
    let ghost cells = buffer_cells(*buf);
    let n = cell_count(buf);
    let mut k = n;
    assert(cells.take(n as int) =~= cells);
    while k > 0
        invariant
            k <= n,
            n == cells.len(),
            cells == buffer_cells(*buf),
            last_filled(cells) == last_filled(cells.take(k as int)),
        decreases k,
    {
        assert(cells.take(k as int).drop_last() =~= cells.take(k - 1));
        if !cell_is_empty(buf, k - 1) {
            return true;
        }
        k = k - 1;
    }
    assert(cells.take(0) =~= Seq::<(bool, Seq<char>)>::empty());
    false
}

/// Whether `find_last_buffer_cell_index` can be asked about `buf`: the position of its last
/// non-empty cell, if any, fits in 16 bits.
pub fn last_position_fits(buf: &Buffer) -> (b: bool)
    ensures
        b == (last_filled(buffer_cells(*buf)) matches Some(i) ==> position_fits(buffer_area(*buf), i)),
{
    let ghost cells = buffer_cells(*buf);
    let n = cell_count(buf);
    let area = area_of(buf);
    let mut k = n;
    assert(cells.take(n as int) =~= cells);
    while k > 0
        invariant
            k <= n,
            n == cells.len(),
            cells == buffer_cells(*buf),
            area.parts() == buffer_area(*buf),
            last_filled(cells) == last_filled(cells.take(k as int)),
        decreases k,
    {
        assert(cells.take(k as int).drop_last() =~= cells.take(k - 1));
        if !cell_is_empty(buf, k - 1) {
            let i = k - 1;
            assert(last_filled(cells) == Some(i as int));
            if area.width == 0 {
                return false;
            }
            let t: u32 = (i % 0x10000) as u32;
            let x: u32 = area.x as u32 + t % area.width as u32;
            let y: u32 = area.y as u32 + t / area.width as u32;
            return x <= 0xffff && y <= 0xffff;
        }
        k = k - 1;
    }
    assert(cells.take(0) =~= Seq::<(bool, Seq<char>)>::empty());
    true
}

/// `widest_filled` does not decrease as rows are added.
pub proof fn law_widest_grows_with_rows(cells: Seq<(bool, Seq<char>)>, width: int, left: int, a: int, b: int)
    requires
        0 <= a <= b,
    ensures
        widest_filled(cells, width, left, a) <= widest_filled(cells, width, left, b),
    decreases b,
{
    if b > a {
        law_widest_grows_with_rows(cells, width, left, a, b - 1);
    }
}

proof fn lemma_rightmost_reads_row(
    c1: Seq<(bool, Seq<char>)>,
    c2: Seq<(bool, Seq<char>)>,
    width: int,
    left: int,
    y: int,
    rows: int,
    x_end: int,
)
    requires
        0 <= left,
        0 <= y < rows,
        x_end <= width,
        forall|i: int| 0 <= i < rows * width ==> #[trigger] c1[i] == c2[i],
    ensures
        rightmost_filled(c1, width, left, y, x_end) == rightmost_filled(c2, width, left, y, x_end),
    decreases x_end,
{
    if x_end > 0 && x_end > left {
        let i = y * width + x_end - 1 - left;
        assert(y * width + x_end - 1 < rows * width) by (nonlinear_arith)
            requires
                0 <= y < rows,
                0 < x_end <= width,
        ;
        assert(0 <= y * width) by (nonlinear_arith)
            requires
                0 <= y,
                0 < width,
        ;
        assert(c1[i] == c2[i]);
        lemma_rightmost_reads_row(c1, c2, width, left, y, rows, x_end - 1);
    }
}

/// `widest_filled` over the rows `0..rows` reads only the cells stored in those rows: two
/// buffers whose first `rows * width` cells agree give the same width, whatever the rows at
/// and below `rows` hold.
pub proof fn law_widest_reads_only_rows_above(
    c1: Seq<(bool, Seq<char>)>,
    c2: Seq<(bool, Seq<char>)>,
    width: int,
    left: int,
    rows: int,
)
    requires
        0 <= left,
        0 <= rows,
        forall|i: int| 0 <= i < rows * width ==> #[trigger] c1[i] == c2[i],
    ensures
        widest_filled(c1, width, left, rows) == widest_filled(c2, width, left, rows),
    decreases rows,
{
    if rows > 0 {
        assert forall|i: int| 0 <= i < (rows - 1) * width implies #[trigger] c1[i] == c2[i] by {
            assert((rows - 1) * width <= rows * width) by (nonlinear_arith)
                requires
                    rows >= 1,
                    i < (rows - 1) * width,
                    0 <= i,
            ;
        }
        law_widest_reads_only_rows_above(c1, c2, width, left, rows - 1);
        lemma_rightmost_reads_row(c1, c2, width, left, rows - 1, rows, width);
    }
}

/// The position found for the last non-empty cell is that of a non-empty cell, and every cell
/// stored after it is empty; when there is none, every cell is empty.
pub proof fn law_last_filled_is_last(cells: Seq<(bool, Seq<char>)>)
    ensures
        last_filled(cells) matches Some(i) ==> {
            &&& 0 <= i < cells.len()
            &&& !cells[i].0
            &&& forall|j: int| i < j < cells.len() ==> #[trigger] cells[j].0
        },
        last_filled(cells) is None ==> forall|j: int| 0 <= j < cells.len() ==> #[trigger] cells[j].0,
    decreases cells.len(),
{
    if cells.len() > 0 {
        let init = cells.drop_last();
        law_last_filled_is_last(init);
        assert forall|j: int| 0 <= j < init.len() implies init[j] == cells[j] by {}
    }
}

proof fn lemma_rightmost_is_filled(
    cells: Seq<(bool, Seq<char>)>,
    width: int,
    left: int,
    y: int,
    x_end: int,
)
    ensures
        rightmost_filled(cells, width, left, y, x_end) >= 0 ==> !cells[y * width + rightmost_filled(
            cells,
            width,
            left,
            y,
            x_end,
        ) - left].0,
        forall|x: int|
            rightmost_filled(cells, width, left, y, x_end) < x < x_end && left <= x
                ==> #[trigger] cells[y * width + x - left].0,
    decreases x_end,
{
    if x_end > 0 && x_end > left {
        lemma_rightmost_is_filled(cells, width, left, y, x_end - 1);
    }
}

/// Every non-empty cell in the rows `0..rows`, at a column from the buffer's left edge `left`
/// to `width`, lies at a column no greater than `widest_filled`; and `widest_filled` is 0 or
/// the column of such a cell. So the width that `find_widest_cell` returns covers all the text
/// it scans and no more.
pub proof fn law_widest_covers_text(cells: Seq<(bool, Seq<char>)>, width: int, left: int, rows: int)
    requires
        width >= 0,
    ensures
        forall|x: int, y: int|
            left <= x < width && 0 <= y < rows && !(#[trigger] cells[y * width + x - left]).0 ==> x
                <= widest_filled(cells, width, left, rows),
        widest_filled(cells, width, left, rows) == 0 || exists|y: int|
            0 <= y < rows && !(#[trigger] cells[y * width + widest_filled(cells, width, left, rows)
                - left]).0,
        0 <= widest_filled(cells, width, left, rows),
    decreases rows,
{
    if rows > 0 {
        law_widest_covers_text(cells, width, left, rows - 1);
        lemma_rightmost_is_filled(cells, width, left, rows - 1, width);
        lemma_rightmost_below(cells, width, left, rows - 1, width);
        let w = widest_filled(cells, width, left, rows);
        let before = widest_filled(cells, width, left, rows - 1);
        let here = rightmost_filled(cells, width, left, rows - 1, width);
        assert forall|x: int, y: int|
            left <= x < width && 0 <= y < rows && !(#[trigger] cells[y * width + x - left]).0 implies x
            <= w by {
            if y == rows - 1 {
                if x > here {
                    assert(cells[(rows - 1) * width + x - left].0);
                }
            }
        }
        if w != 0 {
            if here > before {
                assert(!cells[(rows - 1) * width + w - left].0);
            } else {
                let y = choose|y: int|
                    0 <= y < rows - 1 && !(#[trigger] cells[y * width + before - left]).0;
                assert(0 <= y < rows && !cells[y * width + w - left].0);
            }
        }
    }
}

/// The console rows reserved for the output reach the last row of the image area and the
/// row of the last non-empty cell.
pub proof fn law_extent_reserves_image_rows(
    buf: Buffer,
    skip_rect: Option<Rect>,
    i: int,
)
    ensures
        output_last_row(buf, skip_rect, i) + 1 > image_bottom(skip_rect),
        output_last_row(buf, skip_rect, i) >= position_of(buffer_area(buf), i).1,
{
}

/// The cells sent to the console come in storage order, each at most once, and each is a
/// cell that `drawn` selects; every selected cell among the first `n` is sent.
pub proof fn law_drawn_cells_in_order(
    buf: Buffer,
    last_x: u16,
    last_y: u16,
    skip_rect: Option<Rect>,
    term_width: u16,
    start: int,
    n: int,
)
    requires
        n <= usize::MAX + 1,
    ensures
        forall|j: int, k: int|
            0 <= j < k < drawn_cells(buf, last_x, last_y, skip_rect, term_width, start, n).len()
                ==> (#[trigger] drawn_cells(buf, last_x, last_y, skip_rect, term_width, start, n)[j]).2
                < (#[trigger] drawn_cells(buf, last_x, last_y, skip_rect, term_width, start, n)[k]).2,
        forall|k: int|
            0 <= k < drawn_cells(buf, last_x, last_y, skip_rect, term_width, start, n).len() ==> {
                let e = #[trigger] drawn_cells(buf, last_x, last_y, skip_rect, term_width, start, n)[k];
                &&& e.2 < n
                &&& drawn(buf, last_x, last_y, skip_rect, term_width, e.2 as int)
            },
        forall|i: int|
            0 <= i < n && #[trigger] drawn(buf, last_x, last_y, skip_rect, term_width, i) ==> exists|
                k: int,
            |
                0 <= k < drawn_cells(buf, last_x, last_y, skip_rect, term_width, start, n).len()
                    && (#[trigger] drawn_cells(buf, last_x, last_y, skip_rect, term_width, start, n)[k]).2
                    == i,
    decreases n,
{
    if n > 0 {
        law_drawn_cells_in_order(buf, last_x, last_y, skip_rect, term_width, start, n - 1);
        let before = drawn_cells(buf, last_x, last_y, skip_rect, term_width, start, n - 1);
        let now = drawn_cells(buf, last_x, last_y, skip_rect, term_width, start, n);
        assert forall|i: int|
            0 <= i < n && #[trigger] drawn(buf, last_x, last_y, skip_rect, term_width, i) implies exists|
                k: int,
            | 0 <= k < now.len() && (#[trigger] now[k]).2 == i by {
            if i < n - 1 {
                let k = choose|k: int| 0 <= k < before.len() && (#[trigger] before[k]).2 == i;
                assert(now[k] == before[k]);
            } else {
                assert(now[now.len() - 1].2 == i);
            }
        }
    }
}

/// A cell that a wide symbol covers is never sent: when the cell at index `i` holds a symbol
/// two or more columns wide, the next cell is not drawn.
pub proof fn law_wide_symbol_covers_next(
    buf: Buffer,
    last_x: u16,
    last_y: u16,
    skip_rect: Option<Rect>,
    term_width: u16,
    i: int,
)
    requires
        i >= 0,
        symbol_width(buf, i) >= 2,
    ensures
        !drawn(buf, last_x, last_y, skip_rect, term_width, i + 1),
{
}

/// No cell sent to the console lies inside the image area, beyond column `last_x` or the
/// terminal's width, or below row `last_y`.
pub proof fn law_drawn_cells_avoid_image(
    buf: Buffer,
    last_x: u16,
    last_y: u16,
    skip_rect: Option<Rect>,
    term_width: u16,
    i: int,
)
    requires
        drawn(buf, last_x, last_y, skip_rect, term_width, i),
    ensures
        ({
            let p = position_of(buffer_area(buf), i);
            &&& p.0 < last_x
            &&& p.0 < term_width
            &&& p.1 <= last_y
            &&& skip_rect matches Some(r) ==> !(r.x <= p.0 < r.x + r.width && r.y <= p.1 < r.y
                + r.height)
        }),
{
}

/// The area that ASCII art with these lines takes: from (1, 1), as wide as its widest line
/// and as tall as its number of lines (each truncated to 16 bits).
pub open spec fn ascii_rect(lines: Seq<Seq<Seq<char>>>) -> Rect {
    Rect {
        x: 1,
        y: 1,
        width: (text_width_of(lines) % 0x10000) as u16,
        height: (lines.len() % 0x10000) as u16,
    }
}

/// Over lines each narrower than 65536 columns, the art's width is that of its widest line,
/// where a line's width is the sum of the display widths of all its spans: no line is wider,
/// and some line is exactly as wide (the width is 0 when there are no lines).
pub proof fn law_ascii_width_is_widest_line(lines: Seq<Seq<Seq<char>>>)
    requires
        forall|i: int| 0 <= i < lines.len() ==> line_width(#[trigger] lines[i]) < 0x10000,
    ensures
        forall|i: int| 0 <= i < lines.len() ==> line_width(#[trigger] lines[i]) <= ascii_rect(lines).width,
        lines.len() > 0 ==> exists|i: int|
            0 <= i < lines.len() && line_width(#[trigger] lines[i]) == ascii_rect(lines).width,
        lines.len() == 0 ==> ascii_rect(lines).width == 0,
{
    lemma_text_width_is_max(lines);
    assert(0 <= text_width_of(lines) < 0x10000);
    assert(text_width_of(lines) % 0x10000 == text_width_of(lines));
}

/// A line's width is never negative.
proof fn lemma_line_width_nonneg(spans: Seq<Seq<char>>)
    ensures
        line_width(spans) >= 0,
    decreases spans.len(),
{
    if spans.len() > 0 {
        lemma_line_width_nonneg(spans.drop_last());
    }
}

/// `text_width_of` is the largest line width (0 without lines).
proof fn lemma_text_width_is_max(lines: Seq<Seq<Seq<char>>>)
    ensures
        forall|i: int| 0 <= i < lines.len() ==> line_width(#[trigger] lines[i]) <= text_width_of(lines),
        lines.len() > 0 ==> exists|i: int|
            0 <= i < lines.len() && line_width(#[trigger] lines[i]) == text_width_of(lines),
        lines.len() == 0 ==> text_width_of(lines) == 0,
        text_width_of(lines) >= 0,
    decreases lines.len(),
{
    if lines.len() > 0 {
        let init = lines.drop_last();
        lemma_text_width_is_max(init);
        lemma_line_width_nonneg(lines.last());
        assert forall|i: int| 0 <= i < init.len() implies init[i] == lines[i] by {}
        if line_width(lines.last()) > text_width_of(init) {
            assert(line_width(lines[lines.len() - 1]) == text_width_of(lines));
        } else if init.len() > 0 {
            let j = choose|j: int| 0 <= j < init.len() && line_width(#[trigger] init[j]) == text_width_of(init);
            assert(line_width(lines[j]) == text_width_of(lines));
        } else {
            assert(line_width(lines[0]) == text_width_of(lines));
        }
    }
}

/// `draw_ascii` can draw `ascii` into `buf`: the widths of its lines fit in `usize`, the buffer
/// holds every cell where the art's area overlaps it, and every grapheme that the art's
/// paragraph places lands in the buffer (the art's area itself may reach past the buffer's
/// edge where nothing is written, as with trailing blank lines).
pub open spec fn ascii_fits(ascii: Text<'static>, buf: Buffer) -> bool {
    let r = ascii_rect(text_lines(ascii));
    &&& line_widths_fit(text_lines(ascii))
    &&& overlap_cells_present(r, buffer_area(buf), buffer_cells(buf).len() as int)
    &&& layout_fits(text_layout(ascii, r), r, buffer_area(buf))
}

/// Draws the ASCII art `ascii` into `tmp_buffer` with its top-left corner at (1, 1), and
/// returns the area it takes. Each grapheme that the paragraph lays out is written, as its
/// symbol, at its place in that area; every other cell keeps its value.
pub fn draw_ascii(ascii: Text<'static>, tmp_buffer: &mut Buffer) -> (r: Rect)
    requires
        ascii_fits(ascii, *old(tmp_buffer)),
    ensures
        r == ascii_rect(text_lines(ascii)),
        buffer_area(*final(tmp_buffer)) == buffer_area(*old(tmp_buffer)),
        buffer_cells(*final(tmp_buffer)).len() == buffer_cells(*old(tmp_buffer)).len(),
        paragraph_written(
            buffer_cells(*final(tmp_buffer)),
            buffer_cells(*old(tmp_buffer)),
            buffer_area(*old(tmp_buffer)),
            r,
            text_layout(ascii, r),
        ),
{
    let width = text_width(&ascii);
    let height = text_height(&ascii);
    let ascii_rect = Rect { x: 1, y: 1, width: (width % 0x10000) as u16, height: (height % 0x10000) as u16 };
    render_paragraph(ascii, ascii_rect, tmp_buffer);
    ascii_rect
}

/// The width of line `i` of `ascii`, or `None` when it does not fit in `usize`.
fn line_width_checked(ascii: &Text<'static>, i: usize) -> (r: Option<usize>)
    requires
        i < text_lines(*ascii).len(),
    ensures
        r matches Some(w) ==> w == line_width(text_lines(*ascii)[i as int]),
        r is None ==> line_width(text_lines(*ascii)[i as int]) > usize::MAX,
{
    let ghost spans = text_lines(*ascii)[i as int];
    let n = span_count(ascii, i);
    let mut total: usize = 0;
    let mut j: usize = 0;
    assert(spans.take(0) =~= Seq::<Seq<char>>::empty());
    while j < n
        invariant
            spans == text_lines(*ascii)[i as int],
            i < text_lines(*ascii).len(),
            n == spans.len(),
            j <= n,
            total == line_width(spans.take(j as int)),
        decreases n - j,
    {
        let w = display_width(span_content(ascii, i, j));
        assert(spans.take(j + 1).drop_last() =~= spans.take(j as int));
        if w > usize::MAX - total {
            proof {
                lemma_line_width_grows(spans, j + 1);
            }
            return None;
        }
        total = total + w;
        j = j + 1;
    }
    assert(spans.take(n as int) =~= spans);
    Some(total)
}

proof fn lemma_line_width_grows(spans: Seq<Seq<char>>, k: int)
    requires
        0 <= k <= spans.len(),
    ensures
        line_width(spans.take(k)) <= line_width(spans),
    decreases spans.len(),
{
    if k < spans.len() {
        assert(spans.drop_last().take(k) =~= spans.take(k));
        lemma_line_width_grows(spans.drop_last(), k);
    } else {
        assert(spans.take(k) =~= spans);
    }
}

/// The cell at index `j` of a buffer `width` columns wide lies at column `x`, row `y`.
proof fn lemma_place_of_index(j: int, width: int, x: int, y: int)
    requires
        0 <= x < width,
        0 <= y,
        j == y * width + x,
    ensures
        x == j % width,
        y == j / width,
{
    vstd::arithmetic::div_mod::lemma_fundamental_div_mod_converse(j, width, y, x);
}

/// A place within a `width` x `height` area has an index below `width * height`.
proof fn lemma_index_in_area(width: int, height: int, x: int, y: int)
    requires
        0 <= x < width,
        0 <= y < height,
    ensures
        0 <= y * width + x < width * height,
{
    assert(0 <= y * width + x < width * height) by (nonlinear_arith)
        requires
            0 <= x < width,
            0 <= y < height,
    ;
}

/// Whether `draw_ascii` can draw `ascii` into `buf`, as far as can be told ahead: art 32768
/// columns wide or wider is refused, as its paragraph's layout may not be defined. The places
/// of the graphemes are found by laying the art out into a blank buffer of its own size.
pub fn ascii_drawable(ascii: &Text<'static>, buf: &Buffer) -> (b: bool)
    ensures
        b == (ascii_fits(*ascii, *buf) && ascii_rect(text_lines(*ascii)).width < 0x8000),
{
    let ghost lines = text_lines(*ascii);
    let n = line_count(ascii);
    let mut i: usize = 0;
    while i < n
        invariant
            lines == text_lines(*ascii),
            n == lines.len(),
            i <= n,
            forall|k: int| 0 <= k < i ==> line_width(#[trigger] lines[k]) <= usize::MAX,
        decreases n - i,
    {
        if line_width_checked(ascii, i).is_none() {
            return false;
        }
        i = i + 1;
    }
    let width = text_width(ascii);
    let height = text_height(ascii);
    let r = Rect { x: 1, y: 1, width: (width % 0x10000) as u16, height: (height % 0x10000) as u16 };
    if r.width >= 0x8000 {
        return false;
    }
    let area = area_of(buf);
    let ghost parts = buffer_area(*buf);
    let cells = cell_count(buf);
    let ax: u32 = area.x as u32;
    let ay: u32 = area.y as u32;
    let ar: u32 = if ax + area.width as u32 <= 0xffff { ax + area.width as u32 } else { 0xffff };
    let ab: u32 = if ay + area.height as u32 <= 0xffff { ay + area.height as u32 } else { 0xffff };
    let rr: u32 = if r.x as u32 + r.width as u32 <= 0xffff { r.x as u32 + r.width as u32 } else { 0xffff };
    let rb: u32 = if r.y as u32 + r.height as u32 <= 0xffff { r.y as u32 + r.height as u32 } else { 0xffff };
    let x1: u32 = if r.x as u32 >= ax { r.x as u32 } else { ax };
    let y1: u32 = if r.y as u32 >= ay { r.y as u32 } else { ay };
    let x2: u32 = if rr <= ar { rr } else { ar };
    let y2: u32 = if rb <= ab { rb } else { ab };
    if x1 < x2 && y1 < y2 {
        assert((y2 - 1 - ay) * area.width <= 0xffff * 0xffff) by (nonlinear_arith)
            requires
                y2 - 1 - ay <= 0xffff,
                area.width <= 0xffff,
                y2 - 1 - ay >= 0,
        ;
        let idx: u64 = (y2 - 1 - ay) as u64 * area.width as u64 + (x2 - 1 - ax) as u64;
        assert(idx == cell_index(parts, x2 - 1, y2 - 1));
        if idx >= cells as u64 {
            return false;
        }
    }
    assert(overlap_cells_present(r, parts, buffer_cells(*buf).len() as int));
    // Lay the art out into a blank buffer of its own size to learn where its graphemes go.
    let mut scratch = blank_buffer(r.width, r.height);
    let ghost before = buffer_cells(scratch);
    let ghost w = r.width as int;
    let ghost h = r.height as int;
    let r0 = Rect { x: 0, y: 0, width: r.width, height: r.height };
    proof {
        if r.width > 0 && r.height > 0 {
            lemma_index_in_area(w, h, w - 1, h - 1);
        }
    }
    let copy = clone_text(ascii);
    render_paragraph(copy, r0, &mut scratch);
    let ghost after = buffer_cells(scratch);
    let ghost layout = text_layout(*ascii, r);
    assert(layout == paragraph_layout(text_lines(copy), text_alignments(copy), r0.width, r0.height));
    let ghost l = layout->0;
    let count = cell_count(&scratch);
    let mut j: usize = 0;
    while j < count
        invariant
            after == buffer_cells(scratch),
            count == after.len(),
            count == w * h,
            before.len() == w * h,
            forall|jj: int| 0 <= jj < before.len() ==> #[trigger] before[jj] == (false, Seq::<char>::empty()),
            w == r.width,
            h == r.height,
            r.x == 1 && r.y == 1,
            parts == buffer_area(*buf),
            area.parts() == parts,
            ax == parts.0 && ay == parts.1,
            ar == sat16(parts.0 + parts.2),
            ab == sat16(parts.1 + parts.3),
            paragraph_written(after, before, (0u16, 0u16, r.width, r.height), r0, layout),
            layout == text_layout(*ascii, r),
            l == layout->0,
            r == ascii_rect(text_lines(*ascii)),
            line_widths_fit(text_lines(*ascii)),
            overlap_cells_present(r, parts, buffer_cells(*buf).len() as int),
            r0 == (Rect { x: 0, y: 0, width: r.width, height: r.height }),
            j <= count,
            forall|jj: int|
                0 <= jj < j && (#[trigger] after[jj]).1.len() > 0 ==> in_buffer(
                    parts,
                    r.x + jj % w,
                    r.y + jj / w,
                ),
        decreases count - j,
    {
        let s = cell_symbol(&scratch, j);
        if !s.is_empty() {
            assert(w > 0) by (nonlinear_arith)
                requires
                    0 <= j < w * h,
                    h >= 0,
                    w >= 0,
            ;
            let px: u64 = r.x as u64 + (j as u64) % (r.width as u64);
            let py: u64 = r.y as u64 + (j as u64) / (r.width as u64);
            if !(px >= ax as u64 && px < ar as u64 && py >= ay as u64 && py < ab as u64) {
                proof {
                    assert(after[j as int] != before[j as int]);
                    assert(placed_at(l, r0, (0u16, 0u16, r.width, r.height), j as int));
                    let k = choose|k: int|
                        0 <= k < l.len() && cell_index(
                            (0u16, 0u16, r.width, r.height),
                            r0.x + (#[trigger] l[k]).0,
                            r0.y + l[k].1,
                        ) == j;
                    lemma_place_of_index(j as int, w, l[k].0 as int, l[k].1 as int);
                    assert(!in_buffer(parts, r.x + l[k].0, r.y + l[k].1));
                }
                return false;
            }
        }
        j = j + 1;
    }
    assert forall|k: int| 0 <= k < l.len() implies in_buffer(
        parts,
        r.x + (#[trigger] l[k]).0,
        r.y + l[k].1,
    ) by {
        let jj = l[k].1 * w + l[k].0;
        lemma_index_in_area(w, h, l[k].0 as int, l[k].1 as int);
        lemma_place_of_index(jj, w, l[k].0 as int, l[k].1 as int);
        assert(after[jj].1 == l[k].2);
    }
    true
}

/// Draws `ascii` as `draw_ascii` does when `ascii_drawable` says it can, and returns the area it
/// takes; otherwise returns `None` and leaves `tmp_buffer` as it was.
pub fn try_draw_ascii(ascii: Text<'static>, tmp_buffer: &mut Buffer) -> (r: Option<Rect>)
    ensures
        r is Some <==> ascii_fits(ascii, *old(tmp_buffer)) && ascii_rect(text_lines(ascii)).width
            < 0x8000,
        r matches Some(rect) ==> {
            &&& rect == ascii_rect(text_lines(ascii))
            &&& buffer_area(*final(tmp_buffer)) == buffer_area(*old(tmp_buffer))
            &&& buffer_cells(*final(tmp_buffer)).len() == buffer_cells(*old(tmp_buffer)).len()
            &&& paragraph_written(
                buffer_cells(*final(tmp_buffer)),
                buffer_cells(*old(tmp_buffer)),
                buffer_area(*old(tmp_buffer)),
                rect,
                text_layout(ascii, rect),
            )
        },
        r is None ==> *final(tmp_buffer) == *old(tmp_buffer),
{
    if ascii_drawable(&ascii, tmp_buffer) {
        Some(draw_ascii(ascii, tmp_buffer))
    } else {
        None
    }
}

/// The rightmost column of row `y` that holds a non-empty cell, scanning from the right edge
/// down to the buffer's left edge; -1 when there is none.
fn rightmost_in_row(buf: &Buffer, area: Rect, y: u16, last_y: u16) -> (r: i32)
    requires
        area.parts() == buffer_area(*buf),
        area.y == 0,
        y < last_y,
        last_y * area.width - area.x <= buffer_cells(*buf).len(),
    ensures
        r == rightmost_filled(buffer_cells(*buf), area.width as int, area.x as int, y as int, area.width as int),
{
    let ghost cells = buffer_cells(*buf);
    let ghost w = area.width as int;
    let ghost left = area.x as int;
    let n = cell_count(buf);
    let mut x: u16 = area.width;
    while x > 0 && x > area.x
        invariant
            cells == buffer_cells(*buf),
            n == cells.len(),
            area.parts() == buffer_area(*buf),
            w == area.width,
            left == area.x,
            y < last_y,
            last_y * area.width - area.x <= cells.len(),
            x <= area.width,
            rightmost_filled(cells, w, left, y as int, w) == rightmost_filled(cells, w, left, y as int, x as int),
        decreases x,
    {
        x = x - 1;
        proof {
            lemma_cell_index_bound(x as int, y as int, w, left, last_y as int, n as int);
        }
        let idx: usize = y as usize * area.width as usize + (x - area.x) as usize;
        if !cell_is_empty(buf, idx) {
            return x as i32;
        }
    }
    -1
}

/// Whether `find_widest_cell` can scan the rows `0..last_y` of `buf`.
pub fn rows_are_readable(buf: &Buffer, last_y: u16) -> (b: bool)
    ensures
        b == rows_readable(buffer_cells(*buf), buffer_area(*buf), last_y as int),
{
    let area = area_of(buf);
    let ghost cells = buffer_cells(*buf);
    let ghost w = area.width as int;
    let ghost left = area.x as int;
    let n = cell_count(buf);
    if last_y == 0 || area.width == 0 {
        return true;
    }
    if area.y != 0 || last_y > area.height {
        return false;
    }
    assert(last_y * area.width <= 0xffff * 0xffff) by (nonlinear_arith)
        requires
            last_y <= 0xffff,
            area.width <= 0xffff,
    ;
    let cells_needed: u64 = last_y as u64 * area.width as u64;
    if cells_needed > area.x as u64 && cells_needed - area.x as u64 > n as u64 {
        return false;
    }
    if area.x == 0 {
        return true;
    }
    let mut widest: i32 = 0;
    let mut y: u16 = 0;
    while y < last_y
        invariant
            cells == buffer_cells(*buf),
            n == cells.len(),
            area.parts() == buffer_area(*buf),
            w == area.width,
            left == area.x,
            left > 0,
            w > 0,
            area.y == 0,
            last_y <= area.height,
            last_y * area.width - area.x <= cells.len(),
            y <= last_y,
            widest == widest_filled(cells, w, left, y as int),
            forall|j: int|
                0 <= j < y ==> #[trigger] rightmost_filled(cells, w, left, j, w) > widest_filled(
                    cells,
                    w,
                    left,
                    j,
                ),
        decreases last_y - y,
    {
        proof {
            lemma_widest_bounds(cells, w, left, y as int);
        }
        let here = rightmost_in_row(buf, area, y, last_y);
        if here <= widest {
            assert(!(rightmost_filled(cells, w, left, y as int, w) > widest_filled(cells, w, left, y as int)));
            return false;
        }
        widest = here;
        y = y + 1;
    }
    true
}

/// Whether `console_extent` can be asked about `buf` and `skip_rect`: the last non-empty cell
/// has a position that fits in 16 bits, and every row up to the last row of output can be
/// read.
pub fn extent_is_readable(buf: &Buffer, skip_rect: Option<Rect>) -> (b: bool)
    ensures
        b == (last_filled(buffer_cells(*buf)) matches Some(i) ==> {
            &&& position_fits(buffer_area(*buf), i)
            &&& rows_readable(buffer_cells(*buf), buffer_area(*buf), output_last_row(*buf, skip_rect, i))
        }),
{
    let ghost cells = buffer_cells(*buf);
    let n = cell_count(buf);
    let area = area_of(buf);
    let mut k = n;
    assert(cells.take(n as int) =~= cells);
    while k > 0
        invariant
            k <= n,
            n == cells.len(),
            cells == buffer_cells(*buf),
            area.parts() == buffer_area(*buf),
            last_filled(cells) == last_filled(cells.take(k as int)),
        decreases k,
    {
        assert(cells.take(k as int).drop_last() =~= cells.take(k - 1));
        if !cell_is_empty(buf, k - 1) {
            let i = k - 1;
            assert(last_filled(cells) == Some(i as int));
            if area.width == 0 {
                return false;
            }
            let t: u32 = (i % 0x10000) as u32;
            let x: u32 = area.x as u32 + t % area.width as u32;
            let y: u32 = area.y as u32 + t / area.width as u32;
            if x > 0xffff || y > 0xffff {
                return false;
            }
            let bottom: u16 = match skip_rect {
                None => 0,
                Some(r) => r.y.saturating_add(r.height).saturating_sub(1),
            };
            let last_y: u16 = if y >= bottom as u32 { y as u16 } else { bottom };
            return rows_are_readable(buf, last_y);
        }
        k = k - 1;
    }
    assert(cells.take(0) =~= Seq::<(bool, Seq<char>)>::empty());
    true
}

/// Whether `console_cells` can be asked about these arguments: choosing the cells to draw
/// neither divides by zero nor overflows a 16-bit coordinate.
pub fn console_is_safe(
    buf: &Buffer,
    last_x: u16,
    last_y: u16,
    skip_rect: Option<Rect>,
    term_width: u16,
) -> (b: bool)
    ensures
        b == console_safe(*buf, last_x, last_y, skip_rect, term_width),
{
    let ghost cells = buffer_cells(*buf);
    let n = cell_count(buf);
    let area = area_of(buf);
    let mut skip_n: usize = 0;
    let mut i: usize = 0;
    while i < n
        invariant
            cells == buffer_cells(*buf),
            n == cells.len(),
            area.parts() == buffer_area(*buf),
            i <= n,
            skip_n == covered_before(*buf, i as int),
            forall|j: int|
                0 <= j < i && #[trigger] starts_symbol(*buf, j) ==> {
                    let p = position_of(buffer_area(*buf), j);
                    &&& position_fits(buffer_area(*buf), j)
                    &&& in_view(p.0, p.1, last_x as int, last_y as int, term_width as int) ==> (
                    skip_rect matches Some(r) ==> !outside_test_overflows(r, p.0, p.1))
                },
        decreases n - i,
    {
        proof {
            lemma_covered_iff_uncovered(*buf, i as int);
        }
        let sym = cell_symbol(buf, i);
        let w = display_width(sym);
        if w != 0 {
            let old_skip = skip_n;
            skip_n = w - 1;
            if old_skip == 0 {
                assert(starts_symbol(*buf, i as int));
                if area.width == 0 {
                    return false;
                }
                let t: u32 = (i % 0x10000) as u32;
                let x: u32 = area.x as u32 + t % area.width as u32;
                let y: u32 = area.y as u32 + t / area.width as u32;
                if x > 0xffff || y > 0xffff {
                    return false;
                }
                if x < last_x as u32 && x < term_width as u32 && y <= last_y as u32 {
                    match skip_rect {
                        None => {},
                        Some(r) => {
                            let right: u32 = r.x as u32 + r.width as u32;
                            let bottom: u32 = r.y as u32 + r.height as u32;
                            if x >= r.x as u32 && (right > 0xffff || (x < right && y >= r.y as u32
                                && bottom > 0xffff)) {
                                return false;
                            }
                        },
                    }
                }
            }
        }
        i = i + 1;
    }
    true
}

/// The buffer is printed so that its rows end above the cursor: when it does not start at the
/// top of the terminal, its last row `last_y` lands on the row just above `cursor_y`.
pub proof fn law_output_ends_above_cursor(cursor_y: u16, last_y: u16)
    ensures
        starting_row(cursor_y, last_y) > 0 ==> starting_row(cursor_y, last_y) + last_y + 1 == cursor_y,
        starting_row(cursor_y, last_y) == 0 ==> cursor_y <= last_y + 1,
{
}

} // verus!
