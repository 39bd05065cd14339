//! Terminal geometry and the echo/canonical-mode flags of a terminal.

use vstd::prelude::*;

verus! {

/// A pair of coordinates or extents.
#[derive(Debug, Clone, Copy)]
pub struct Vec2<T> {
    pub x: T,
    pub y: T,
}

/// Width (`x`, in columns) and height (`y`, in rows) of a terminal.
pub type Dimensions = Vec2<usize>;

/// A position on the terminal.
pub type Position = Vec2<usize>;

/// The local-mode word `lflag` with the echo bit `echo` and the
/// canonical-input bit `icanon` (whose values the platform defines) both
/// switched on (`enable`) or both off, every other bit kept.
pub fn local_mode_flags(lflag: u64, echo: u64, icanon: u64, enable: bool) -> (r: u64)
    ensures
        r & (echo | icanon) == (if enable { echo | icanon } else { 0 }),
        r & !(echo | icanon) == lflag & !(echo | icanon),
{
    let r = if enable {
        lflag | (echo | icanon)
    } else {
        lflag & !(echo | icanon)
    };
    if enable {
        assert(r & (echo | icanon) == echo | icanon && r & !(echo | icanon) == lflag & !(echo | icanon))
            by (bit_vector)
            requires
                r == lflag | (echo | icanon),
        ;
    } else {
        assert(r & (echo | icanon) == 0 && r & !(echo | icanon) == lflag & !(echo | icanon))
            by (bit_vector)
            requires
                r == lflag & !(echo | icanon),
        ;
    }
    r
}

/// The dimensions that a terminal's window-size record reports:
/// `cols` columns wide and `rows` rows high.
pub fn dimensions_from_window_size(rows: u16, cols: u16) -> (d: Dimensions)
    ensures
        d.x == cols,
        d.y == rows,
{
    Dimensions { x: cols as usize, y: rows as usize }
}

} // verus!
