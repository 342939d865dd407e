use macchina_render::escape::push_decimal;
use macchina_render::geometry::Rect;
use macchina_render::layout::{
    buffer_area, choose_ascii, choose_backend, chafa_format, custom_ascii_fits, empty_ascii_area,
    image_area, image_columns, image_rows, image_terminal_row, needs_chafa_probe,
    prefers_small_ascii, readout_area, skip_area, AsciiChoice, ImageBackend,
};
use macchina_render::version::version_lines;

#[test]
fn image_columns_default_to_twenty() {
    assert_eq!(image_columns(None), 20);
    assert_eq!(image_columns(Some(33)), 33);
}

#[test]
fn image_rows_are_readouts_plus_two_at_least_ten() {
    assert_eq!(image_rows(0), 10);
    assert_eq!(image_rows(8), 10);
    assert_eq!(image_rows(12), 14);
    assert_eq!(image_rows(65536 + 20), 22);
}

#[test]
fn small_ascii_preferred_with_few_readouts() {
    assert!(prefers_small_ascii(7, false));
    assert!(!prefers_small_ascii(8, false));
    assert!(prefers_small_ascii(20, true));
}

#[test]
fn backend_prefers_kitty_then_chafa() {
    assert_eq!(choose_backend(false, true, true, true), ImageBackend::NoImage);
    assert_eq!(choose_backend(true, true, false, false), ImageBackend::Kitty);
    assert_eq!(choose_backend(true, false, true, false), ImageBackend::Kitty);
    assert_eq!(choose_backend(true, false, false, true), ImageBackend::Chafa);
    assert_eq!(choose_backend(true, false, false, false), ImageBackend::NoImage);
    assert!(needs_chafa_probe(true, false, false));
    assert!(!needs_chafa_probe(true, false, true));
    assert!(!needs_chafa_probe(false, false, false));
}

#[test]
fn chafa_format_depends_on_windows_terminal() {
    assert_eq!(chafa_format(true), "sixels");
    assert_eq!(chafa_format(false), "symbols");
}

#[test]
fn ascii_choice_follows_theme_and_image() {
    assert_eq!(choose_ascii(ImageBackend::Kitty, true, true, true), AsciiChoice::Hidden);
    assert_eq!(choose_ascii(ImageBackend::NoImage, false, true, true), AsciiChoice::Hidden);
    assert_eq!(choose_ascii(ImageBackend::NoImage, true, true, true), AsciiChoice::Custom);
    assert_eq!(choose_ascii(ImageBackend::NoImage, true, false, true), AsciiChoice::Small);
    assert_eq!(choose_ascii(ImageBackend::NoImage, true, false, false), AsciiChoice::Big);
}

#[test]
fn custom_ascii_must_fit() {
    assert!(custom_ascii_fits(10, 49));
    assert!(!custom_ascii_fits(10, 50));
    assert!(!custom_ascii_fits(0, 3));
}

#[test]
fn areas_of_the_screen() {
    let buffer = buffer_area();
    assert_eq!(buffer, Rect::new(0, 0, 500, 50));
    assert_eq!(empty_ascii_area(buffer), Rect::new(0, 1, 0, 49));
    assert_eq!(image_area(20, 14), Rect::new(1, 1, 20, 14));
    assert_eq!(readout_area(Rect::new(1, 1, 20, 14), buffer), Rect::new(23, 1, 476, 14));
    assert_eq!(readout_area(Rect::new(0, 1, 0, 49), buffer), Rect::new(2, 1, 496, 49));
}

#[test]
fn skip_area_only_with_an_image() {
    let r = Rect::new(1, 1, 20, 10);
    assert_eq!(skip_area(ImageBackend::Chafa, r), Some(r));
    assert_eq!(skip_area(ImageBackend::Kitty, r), Some(r));
    assert_eq!(skip_area(ImageBackend::NoImage, r), None);
}

#[test]
fn image_row_is_two_below_the_start() {
    assert_eq!(image_terminal_row(0), 2);
    assert_eq!(image_terminal_row(40), 42);
}

#[test]
fn decimal_digits() {
    let mut out = Vec::new();
    push_decimal(&mut out, 0);
    push_decimal(&mut out, 4096);
    push_decimal(&mut out, 4294967295);
    assert_eq!(out, b"040964294967295".to_vec());
}

#[test]
fn version_lines_with_and_without_commit() {
    let (a, b) = version_lines("macchina", "6.4.0", Some("abc123"), "8.1.0");
    assert_eq!(a, "macchina     6.4.0 (abc123)");
    assert_eq!(b, "libmacchina  8.1.0");
    let (a, _) = version_lines("macchina", "6.4.0", None, "8.1.0");
    assert_eq!(a, "macchina     6.4.0");
}

#[test]
fn areas_are_cut_at_the_last_column_and_row() {
    assert_eq!(image_area(65535, 3), Rect::new(1, 1, 65534, 3));
    assert_eq!(Rect::new(10, 65530, 5, 10), Rect { x: 10, y: 65530, width: 5, height: 5 });
    assert_eq!(
        readout_area(Rect::new(1, 1, 20, 14), Rect { x: 0, y: 0, width: 65535, height: 50 }),
        Rect { x: 23, y: 1, width: 65511, height: 14 }
    );
}
