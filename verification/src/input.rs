//! Plain-value input events and the per-frame decisions the driver takes
//! on them. Polling and decoding terminal input is the collaborator's
//! business; the decisions on the decoded values live here.

use vstd::prelude::*;
use crate::geometry::{Point, Rect};

verus! {

/// A terminal resize notification: the new extent in character cells.
#[derive(Debug, Clone, Copy, PartialEq, Eq)]
pub struct ResizeEvent {
    pub h: u16,
    pub w: u16,
}

/// The character the demo driver draws each frame.
#[derive(Debug, Clone, Copy, PartialEq, Eq)]
pub struct Indicator(pub char);

/// Reacts to one typed character: the indicator takes that character, and
/// typing `q` asks the driver to quit.
pub fn apply_key(indicator: &mut Indicator, ch: char) -> (quit: bool)
    ensures
        final(indicator).0 == ch,
        quit == (ch == 'q'),
{
    indicator.0 = ch;
    ch == 'q'
}

/// Where the indicator is drawn on a buffer of extent `shape`: five rows
/// above the bottom edge (clamped to the top row), in the column the
/// random draw `rand_col` selects. The point always lies within `shape`.
pub fn indicator_position(shape: &Rect, rand_col: u32) -> (p: Point)
    requires
        shape.h > 0,
        shape.w > 0,
    ensures
        p.0 == if shape.h >= 5 {
            (shape.h - 5) as u32
        } else {
            0u32
        },
        p.1 as int == rand_col as int % shape.w as int,
        shape.contains(p.0 as int, p.1 as int),
{
    let row: u32 = if shape.h >= 5 {
        shape.h - 5
    } else {
        0
    };
    let col: u32 = rand_col % shape.w;
    Point(row, col)
}

} // verus!
