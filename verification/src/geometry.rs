use vstd::prelude::*;

verus! {

/// A rectangle of terminal cells: its top-left corner and its size.
#[derive(Clone, Copy, Debug, PartialEq, Eq, Structural)]
pub struct Rect {
    pub x: u16,
    pub y: u16,
    pub width: u16,
    pub height: u16,
}

impl Rect {
    /// The rectangle at (`x`, `y`) of the given size, with the width and height cut so that its
    /// right and bottom edges stay within 16 bits (as ratatui's `Rect::new` does).
    pub open spec fn clamped(x: u16, y: u16, width: u16, height: u16) -> Rect {
        Rect {
            x,
            y,
            width: if width > u16::MAX - x { (u16::MAX - x) as u16 } else { width },
            height: if height > u16::MAX - y { (u16::MAX - y) as u16 } else { height },
        }
    }

    /// A rectangle at (`x`, `y`) of the given size, cut so that its right and bottom edges stay
    /// within 16 bits.
    pub fn new(x: u16, y: u16, width: u16, height: u16) -> (r: Rect)
        ensures
            r == Rect::clamped(x, y, width, height),
    {
        let max_width = u16::MAX - x;
        let max_height = u16::MAX - y;
        Rect {
            x,
            y,
            width: if width > max_width { max_width } else { width },
            height: if height > max_height { max_height } else { height },
        }
    }

    /// The rectangle as an `(x, y, width, height)` tuple.
    pub open spec fn parts(self) -> (u16, u16, u16, u16) {
        (self.x, self.y, self.width, self.height)
    }
}

} // verus!
