use macchina_render::buffer::{
    ascii_drawable, console_cells, console_extent, console_is_safe, extent_is_readable,
    has_filled_cell, last_position_fits, rows_are_readable, draw_ascii, find_last_buffer_cell_index, find_widest_cell,
    try_draw_ascii,
};
use macchina_render::geometry::Rect;
use ratatui::buffer::Buffer;
use ratatui::style::{Color, Style};
use ratatui::text::{Line, Text};

fn buffer(width: u16, height: u16) -> Buffer {
    Buffer::empty(ratatui::layout::Rect::new(0, 0, width, height))
}

#[test]
fn last_cell_of_empty_buffer_is_none() {
    let buf = buffer(10, 5);
    assert_eq!(find_last_buffer_cell_index(&buf), None);
}

#[test]
fn last_cell_is_the_last_written_in_storage_order() {
    let mut buf = buffer(10, 5);
    buf.set_string(7, 0, "x", Style::default());
    buf.set_string(3, 2, "ab", Style::default());
    assert_eq!(find_last_buffer_cell_index(&buf), Some((4, 2)));
}

#[test]
fn last_cell_counts_a_styled_blank_cell() {
    let mut buf = buffer(10, 5);
    buf.set_style(ratatui::layout::Rect::new(6, 3, 1, 1), Style::default().bg(Color::Red));
    assert_eq!(find_last_buffer_cell_index(&buf), Some((6, 3)));
}

#[test]
fn last_cell_is_offset_by_the_area_origin() {
    let mut buf = Buffer::empty(ratatui::layout::Rect::new(200, 100, 10, 10));
    buf.content[14].set_symbol("z");
    assert_eq!(find_last_buffer_cell_index(&buf), Some((204, 101)));
}

#[test]
fn widest_cell_of_empty_rows_is_one() {
    let buf = buffer(10, 5);
    assert_eq!(find_widest_cell(&buf, 5), 1);
    assert_eq!(find_widest_cell(&buf, 0), 1);
}

#[test]
fn widest_cell_is_one_past_the_rightmost_text() {
    let mut buf = buffer(20, 5);
    buf.set_string(0, 0, "hello", Style::default());
    buf.set_string(2, 1, "world!!", Style::default());
    buf.set_string(1, 3, "x", Style::default());
    assert_eq!(find_widest_cell(&buf, 5), 9);
}

#[test]
fn widest_cell_ignores_the_row_last_y_itself() {
    let mut buf = buffer(20, 5);
    buf.set_string(0, 0, "ab", Style::default());
    buf.set_string(0, 2, "abcdefghij", Style::default());
    assert_eq!(find_widest_cell(&buf, 2), 2);
    assert_eq!(find_widest_cell(&buf, 3), 10);
}

#[test]
fn empty_buffer_has_no_filled_cell() {
    let mut buf = buffer(10, 5);
    assert!(!has_filled_cell(&buf));
    buf.set_string(9, 4, "x", Style::default());
    assert!(has_filled_cell(&buf));
}

#[test]
fn extent_follows_the_last_text_row() {
    let mut buf = buffer(20, 10);
    buf.set_string(0, 0, "abcdef", Style::default());
    buf.set_string(0, 3, "ab", Style::default());
    let e = console_extent(&buf, None);
    assert_eq!(e.last_y, 3);
    assert_eq!(e.last_x, 6);
    assert_eq!(e.blank_lines, 4);
}

#[test]
fn extent_reserves_rows_for_a_taller_image() {
    let mut buf = buffer(30, 20);
    buf.set_string(5, 1, "abc", Style::default());
    let e = console_extent(&buf, Some(Rect::new(1, 1, 4, 12)));
    assert_eq!(e.last_y, 12);
    assert_eq!(e.blank_lines, 13);
    assert_eq!(e.last_x, 8);
}

#[test]
fn console_starts_above_the_cursor() {
    let mut buf = buffer(10, 4);
    buf.set_string(0, 0, "ab", Style::default());
    buf.set_string(0, 2, "c", Style::default());
    let plan = console_cells(&buf, 3, 2, None, 80, 30);
    assert_eq!(plan.starting_pos, 27);
    assert_eq!(
        plan.cells,
        vec![
            (0, 27, 0),
            (1, 27, 1),
            (2, 27, 2),
            (0, 28, 10),
            (1, 28, 11),
            (2, 28, 12),
            (0, 29, 20),
            (1, 29, 21),
            (2, 29, 22)
        ]
    );
}

#[test]
fn console_start_saturates_at_the_top() {
    let mut buf = buffer(4, 3);
    buf.set_string(0, 0, "a", Style::default());
    let plan = console_cells(&buf, 1, 2, None, 80, 2);
    assert_eq!(plan.starting_pos, 0);
    assert_eq!(plan.cells, vec![(0, 0, 0), (0, 1, 4), (0, 2, 8)]);
}

#[test]
fn console_skips_the_cell_a_wide_symbol_covers() {
    let mut buf = buffer(6, 1);
    buf.set_string(0, 0, "aあb", Style::default());
    let plan = console_cells(&buf, 6, 0, None, 80, 0);
    let columns: Vec<u16> = plan.cells.iter().map(|c| c.0).collect();
    assert_eq!(columns, vec![0, 1, 3, 4, 5]);
}

#[test]
fn console_leaves_the_image_area_blank() {
    let mut buf = buffer(6, 3);
    for y in 0..3 {
        buf.set_string(0, y, "abcdef", Style::default());
    }
    let plan = console_cells(&buf, 6, 2, Some(Rect::new(1, 1, 2, 1)), 80, 0);
    assert_eq!(plan.cells.len(), 16);
    assert!(plan.cells.iter().all(|&(x, y, _)| !(y == 1 && (x == 1 || x == 2))));
}

#[test]
fn console_cuts_at_the_terminal_width_and_last_column() {
    let mut buf = buffer(10, 1);
    buf.set_string(0, 0, "abcdefghij", Style::default());
    assert_eq!(console_cells(&buf, 10, 0, None, 4, 0).cells.len(), 4);
    assert_eq!(console_cells(&buf, 3, 0, None, 80, 0).cells.len(), 3);
}

#[test]
fn draw_ascii_returns_the_art_area() {
    let mut buf = buffer(20, 10);
    let art = Text::from("ab\ncde\nf");
    let r = draw_ascii(art, &mut buf);
    assert_eq!(r, Rect::new(1, 1, 3, 3));
    assert_eq!(buf.content[21].symbol(), "a");
    assert_eq!(buf.content[43].symbol(), "e");
    assert_eq!(buf.area, ratatui::layout::Rect::new(0, 0, 20, 10));
}

#[test]
fn draw_ascii_of_empty_text_is_empty() {
    let mut buf = buffer(20, 10);
    let r = draw_ascii(Text::default(), &mut buf);
    assert_eq!(r, Rect::new(1, 1, 0, 0));
}

#[test]
fn widest_cell_scans_columns_from_zero_in_an_offset_buffer() {
    let mut buf = Buffer::empty(ratatui::layout::Rect::new(2, 0, 5, 2));
    buf.content[2].set_symbol("a");
    buf.content[7].set_symbol("b");
    assert_eq!(find_widest_cell(&buf, 1), 5);
    assert!(extent_is_readable(&buf, None));
    let e = console_extent(&buf, None);
    assert_eq!((e.last_x, e.last_y), (5, 1));
}

#[test]
fn extent_is_unreadable_when_a_row_scan_passes_the_left_edge() {
    let mut buf = Buffer::empty(ratatui::layout::Rect::new(2, 0, 5, 3));
    buf.content[2].set_symbol("a");
    buf.content[7].set_symbol("b");
    assert!(!extent_is_readable(&buf, Some(Rect::new(1, 1, 1, 2))));
}

#[test]
fn extent_is_unreadable_past_the_buffer_bottom() {
    let mut buf = buffer(10, 5);
    buf.set_string(0, 0, "a", Style::default());
    assert!(extent_is_readable(&buf, Some(Rect::new(1, 1, 2, 5))));
    assert!(!extent_is_readable(&buf, Some(Rect::new(1, 1, 2, 6))));
}

#[test]
fn console_is_unsafe_for_a_zero_width_buffer_with_cells() {
    let mut buf = buffer(4, 2);
    buf.set_string(0, 0, "ab", Style::default());
    assert!(console_is_safe(&buf, 4, 1, None, 80));
    buf.area.width = 0;
    assert!(!console_is_safe(&buf, 4, 1, None, 80));
}

#[test]
fn console_is_unsafe_when_the_image_edge_overflows() {
    let mut buf = buffer(4, 2);
    buf.set_string(0, 0, "ab", Style::default());
    assert!(!console_is_safe(&buf, 4, 1, Some(Rect { x: 1, y: 0, width: 65535, height: 1 }), 80));
    assert!(console_is_safe(&buf, 4, 1, Some(Rect::new(1, 0, 3, 1)), 80));
}

#[test]
fn draw_ascii_writes_the_art_and_nothing_else() {
    let mut buf = buffer(5, 3);
    let art = Text::from("ab\ncde");
    assert!(ascii_drawable(&art, &buf));
    let r = draw_ascii(art, &mut buf);
    assert_eq!(r, Rect::new(1, 1, 3, 2));
    assert_eq!(buf, Buffer::with_lines(["     ", " ab  ", " cde "]));
}

#[test]
fn draw_ascii_keeps_cells_outside_the_art() {
    let mut buf = buffer(6, 4);
    buf.set_string(0, 0, "zzzzzz", Style::default());
    buf.set_string(5, 2, "q", Style::default());
    let before = buf.clone();
    let r = draw_ascii(Text::from("xy"), &mut buf);
    assert_eq!(r, Rect::new(1, 1, 2, 1));
    for (i, cell) in buf.content.iter().enumerate() {
        if i != 7 && i != 8 {
            assert_eq!(cell, &before.content[i]);
        }
    }
    assert_eq!(buf.content[7].symbol(), "x");
    assert_eq!(buf.content[8].symbol(), "y");
}

#[test]
fn ascii_that_does_not_fit_is_not_drawable() {
    let buf = buffer(2, 2);
    assert!(!ascii_drawable(&Text::from("abc"), &buf));
    assert!(ascii_drawable(&Text::from("a"), &buf));
    let buf = buffer(5, 2);
    assert!(!ascii_drawable(&Text::from("a\nb"), &buf));
    let trailing_blank = Text::from(vec![Line::from("a"), Line::from("")]);
    assert!(ascii_drawable(&trailing_blank, &buf));
}

#[test]
fn draw_ascii_allows_blank_lines_past_the_buffer() {
    let mut buf = buffer(10, 3);
    let art = Text::from(vec![Line::from("ab"), Line::from(""), Line::from(""), Line::from("")]);
    assert!(ascii_drawable(&art, &buf));
    let r = draw_ascii(art, &mut buf);
    assert_eq!(r, Rect::new(1, 1, 2, 4));
    assert_eq!(buf.content[11].symbol(), "a");
    assert_eq!(buf.content[12].symbol(), "b");
    assert_eq!(buf.area, ratatui::layout::Rect::new(0, 0, 10, 3));
}

#[test]
fn draw_ascii_places_right_aligned_lines() {
    let mut buf = buffer(4, 3);
    let art = Text::from(vec![Line::from("abc"), Line::from("d").right_aligned()]);
    assert!(ascii_drawable(&art, &buf));
    let r = draw_ascii(art, &mut buf);
    assert_eq!(r, Rect::new(1, 1, 3, 2));
    assert_eq!(buf, Buffer::with_lines(["    ", " abc", "   d"]));
}

#[test]
fn try_draw_ascii_leaves_the_buffer_when_the_art_does_not_fit() {
    let mut buf = buffer(3, 2);
    buf.set_string(0, 0, "z", Style::default());
    let before = buf.clone();
    assert_eq!(try_draw_ascii(Text::from("abcd"), &mut buf), None);
    assert_eq!(buf, before);
    assert_eq!(try_draw_ascii(Text::from("ab"), &mut buf), Some(Rect::new(1, 1, 2, 1)));
    assert_eq!(buf, Buffer::with_lines(["z  ", " ab"]));
}

#[test]
fn ascii_of_32768_columns_is_not_checked_ahead() {
    let buf = buffer(32800, 2);
    assert!(!ascii_drawable(&Text::from("a".repeat(32768)), &buf));
    assert!(ascii_drawable(&Text::from("a".repeat(32767)), &buf));
}

#[test]
fn last_position_fits_unless_the_width_is_zero() {
    let mut buf = buffer(4, 2);
    buf.set_string(1, 1, "a", Style::default());
    assert!(last_position_fits(&buf));
    buf.area.width = 0;
    assert!(!last_position_fits(&buf));
    let empty = buffer(3, 3);
    assert!(last_position_fits(&empty));
}

#[test]
fn rows_are_readable_within_the_buffer() {
    let buf = buffer(4, 3);
    assert!(rows_are_readable(&buf, 3));
    assert!(!rows_are_readable(&buf, 4));
    assert!(rows_are_readable(&buf, 0));
}
