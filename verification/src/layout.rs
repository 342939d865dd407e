//! Where the ASCII art or image, and the readouts next to it, are placed.

use vstd::prelude::*;

use crate::geometry::Rect;

verus! {

/// Width of the scratch buffer that everything is drawn into.
pub const BUFFER_WIDTH: u16 = 500;

/// Height of the scratch buffer that everything is drawn into.
pub const BUFFER_HEIGHT: u16 = 50;

/// Custom ASCII art must be less tall than this to be drawn.
pub const MAX_ASCII_HEIGHT: usize = 50;

/// With fewer readouts than this, the small ASCII art is preferred.
pub const MINIMUM_READOUTS_TO_PREFER_SMALL_ASCII: usize = 8;

/// Width in cells of an image when none is asked for.
pub const DEFAULT_IMAGE_COLUMNS: u16 = 20;

/// An image is at least this many cells tall.
pub const MINIMUM_IMAGE_ROWS: u16 = 10;

/// The area of the scratch buffer.
pub fn buffer_area() -> (r: Rect)
    ensures
        r == (Rect { x: 0, y: 0, width: 500, height: 50 }),
{
    Rect { x: 0, y: 0, width: BUFFER_WIDTH, height: BUFFER_HEIGHT }
}

/// The area reserved on the left when neither art nor image is drawn: no columns, and every
/// row of the buffer below the first.
pub fn empty_ascii_area(buffer: Rect) -> (r: Rect)
    requires
        buffer.height >= 1,
    ensures
        r == Rect::clamped(0, 1, 0, (buffer.height - 1) as u16),
{
    Rect::new(0, 1, 0, buffer.height - 1)
}

/// Width in cells of the image: the size asked for, or 20.
pub fn image_columns(image_size: Option<u16>) -> (c: u16)
    ensures
        c == (match image_size { Some(s) => s, None => 20 }),
{
    match image_size {
        Some(s) => s,
        None => DEFAULT_IMAGE_COLUMNS,
    }
}

/// Height in cells of the image: two more than the number of readouts (taken modulo 2^16),
/// and at least 10.
pub fn image_rows(readout_count: usize) -> (r: u16)
    requires
        readout_count % 0x10000 + 2 <= u16::MAX,
    ensures
        r == (if readout_count % 0x10000 + 2 >= 10 { readout_count % 0x10000 + 2 } else { 10 }),
{
    let rows: u16 = (readout_count % 0x10000) as u16 + 2;
    if rows >= MINIMUM_IMAGE_ROWS { rows } else { MINIMUM_IMAGE_ROWS }
}

/// The small ASCII art is preferred with fewer than 8 readouts, or when the theme asks for it.
pub fn prefers_small_ascii(readout_count: usize, theme_prefers_small: bool) -> (b: bool)
    ensures
        b == (readout_count < 8 || theme_prefers_small),
{
    readout_count < MINIMUM_READOUTS_TO_PREFER_SMALL_ASCII || theme_prefers_small
}

/// How the space left of the readouts is used.
#[derive(Clone, Copy, Debug, PartialEq, Eq, Structural)]
pub enum ImageBackend {
    /// An image drawn with the Kitty graphics protocol.
    Kitty,
    /// An image drawn by chafa, as sixels or symbols.
    Chafa,
    /// No image.
    NoImage,
}

/// Whether, to choose the image backend, it must be checked that chafa is installed: an image
/// is asked for, and the Kitty protocol is neither forced nor supported.
pub fn needs_chafa_probe(image_given: bool, force_kitty: bool, kitty_supported: bool) -> (b: bool)
    ensures
        b == (image_given && !force_kitty && !kitty_supported),
{
    image_given && !force_kitty && !kitty_supported
}

/// How an image that is asked for is shown: with the Kitty protocol when it is forced or
/// supported, else with chafa when it is installed, else not at all.
pub fn choose_backend(image_given: bool, force_kitty: bool, kitty_supported: bool, chafa_installed: bool) -> (b: ImageBackend)
    ensures
        b == (if !image_given {
            ImageBackend::NoImage
        } else if force_kitty || kitty_supported {
            ImageBackend::Kitty
        } else if chafa_installed {
            ImageBackend::Chafa
        } else {
            ImageBackend::NoImage
        }),
{
    if !image_given {
        ImageBackend::NoImage
    } else if force_kitty || kitty_supported {
        ImageBackend::Kitty
    } else if chafa_installed {
        ImageBackend::Chafa
    } else {
        ImageBackend::NoImage
    }
}

/// chafa's output format: sixels in Windows Terminal (when `WT_SESSION` is set), Unicode
/// block symbols elsewhere.
pub fn chafa_format(in_windows_terminal: bool) -> (f: &'static str)
    ensures
        f@ == (if in_windows_terminal { "sixels"@ } else { "symbols"@ }),
{
    if in_windows_terminal { "sixels" } else { "symbols" }
}

/// The area an image takes: from (1, 1), `cols` by `rows` cells (each cut to 65534).
pub fn image_area(cols: u16, rows: u16) -> (r: Rect)
    ensures
        r == Rect::clamped(1, 1, cols, rows),
{
    Rect::new(1, 1, cols, rows)
}

/// Which ASCII art is drawn.
#[derive(Clone, Copy, Debug, PartialEq, Eq, Structural)]
pub enum AsciiChoice {
    /// None: an image is shown, or the theme hides the art.
    Hidden,
    /// The art read from the theme's file.
    Custom,
    /// The built-in small art.
    Small,
    /// The built-in big art.
    Big,
}

/// Chooses the ASCII art: none with an image or when the theme hides it; else the theme's own
/// file when it names one; else the small or the big built-in art.
pub fn choose_ascii(backend: ImageBackend, ascii_visible: bool, has_custom_path: bool, prefers_small: bool) -> (c: AsciiChoice)
    ensures
        c == (if backend != ImageBackend::NoImage || !ascii_visible {
            AsciiChoice::Hidden
        } else if has_custom_path {
            AsciiChoice::Custom
        } else if prefers_small {
            AsciiChoice::Small
        } else {
            AsciiChoice::Big
        }),
{
    match backend {
        ImageBackend::NoImage => {
            if !ascii_visible {
                AsciiChoice::Hidden
            } else if has_custom_path {
                AsciiChoice::Custom
            } else if prefers_small {
                AsciiChoice::Small
            } else {
                AsciiChoice::Big
            }
        },
        _ => AsciiChoice::Hidden,
    }
}

/// Custom art is drawn only when it has a width and is less than 50 lines tall.
pub fn custom_ascii_fits(width: usize, height: usize) -> (b: bool)
    ensures
        b == (width != 0 && height < 50),
{
    width != 0 && height < MAX_ASCII_HEIGHT
}

/// The area of the readouts: two columns right of the art or image, level with it and as tall,
/// and as wide as what is left of the buffer after the art and four columns of margin.
pub fn readout_area(ascii: Rect, buffer: Rect) -> (r: Rect)
    requires
        ascii.x + ascii.width + 2 <= u16::MAX,
        ascii.width + 4 <= buffer.width,
    ensures
        r == Rect::clamped(
            (ascii.x + ascii.width + 2) as u16,
            ascii.y,
            (buffer.width - ascii.width - 4) as u16,
            ascii.height,
        ),
{
    Rect::new(ascii.x + ascii.width + 2, ascii.y, buffer.width - ascii.width - 4, ascii.height)
}

/// The area the console output must leave blank for an image drawn straight to the terminal.
pub fn skip_area(backend: ImageBackend, ascii: Rect) -> (r: Option<Rect>)
    ensures
        r == (if backend == ImageBackend::NoImage { None } else { Some(ascii) }),
{
    match backend {
        ImageBackend::NoImage => None,
        _ => Some(ascii),
    }
}

/// The 1-indexed terminal row of an image that starts at buffer row 1 when the buffer is
/// printed from terminal row `starting_pos` (0-indexed).
pub fn image_terminal_row(starting_pos: u16) -> (r: u16)
    requires
        starting_pos + 2 <= u16::MAX,
    ensures
        r == starting_pos + 2,
{
    starting_pos + 2
}

/// The readouts never overlap the art or image: the readout area starts two columns right of
/// it, on the same row, with the same height, and stays inside the buffer's width.
pub proof fn law_readouts_beside_art(ascii: Rect, buffer: Rect)
    requires
        ascii.x + ascii.width + 2 <= u16::MAX,
        ascii.width + 4 <= buffer.width,
        ascii.x <= 2,
    ensures
        ({
            let r = Rect::clamped(
                (ascii.x + ascii.width + 2) as u16,
                ascii.y,
                (buffer.width - ascii.width - 4) as u16,
                ascii.height,
            );
            &&& r.x >= ascii.x + ascii.width + 2
            &&& r.y == ascii.y
            &&& r.height <= ascii.height
            &&& r.x + r.width <= buffer.width
        }),
{
}

} // verus!
