//! Where the three charts of the analyser stand on a terminal of a given
//! size: the winding in the upper left, the waveform to its right, the
//! spectrum across the lower half.

use vstd::prelude::*;

verus! {

/// A rectangle of terminal cells.
#[derive(Clone, Copy, Debug, PartialEq, Eq, Structural)]
pub struct Area {
    pub x: u16,
    pub y: u16,
    pub width: u16,
    pub height: u16,
}

impl Area {
    /// Whether the area lies within a terminal of the given size.
    pub open spec fn fits(self, width: u16, height: u16) -> bool {
        self.x + self.width <= width && self.y + self.height <= height
    }
}

/// The lesser of two numbers.
pub open spec fn least(a: int, b: int) -> int {
    if a <= b {
        a
    } else {
        b
    }
}

/// The area of the winding: the upper half of the terminal in height, twice
/// as many cells wide as high, so that it looks square, or as wide as the
/// terminal if that is less.
pub fn circle_area(width: u16, height: u16) -> (area: Area)
    ensures
        area.x == 0,
        area.y == 0,
        area.height == height / 2,
        area.width == least(2 * (height / 2), width as int),
        area.fits(width, height),
{
    let h: u16 = height / 2;
    let w: u16 = if h <= width / 2 {
        h * 2
    } else {
        width
    };
    Area { x: 0, y: 0, width: w, height: h }
}

/// The area of the waveform: the upper half of the terminal in height, from
/// the column `height` to the right edge; nothing where the terminal is
/// narrower than that.
pub fn waveform_area(width: u16, height: u16) -> (area: Area)
    ensures
        area.x == least(height as int, width as int),
        area.y == 0,
        area.height == height / 2,
        area.width == width - area.x,
        area.fits(width, height),
{
    let x: u16 = if height <= width {
        height
    } else {
        width
    };
    Area { x, y: 0, width: width - x, height: height / 2 }
}

/// The area of the spectrum: the full width, as high as the upper half and
/// right below it.
pub fn spectrum_area(width: u16, height: u16) -> (area: Area)
    ensures
        area.x == 0,
        area.y == height / 2,
        area.height == height / 2,
        area.width == width,
        area.fits(width, height),
{
    let y: u16 = height / 2;
    Area { x: 0, y, width, height: y }
}

/// The winding and the waveform share no cell unless the terminal is narrower
/// than it is high, and neither shares a cell with the spectrum.
pub proof fn lemma_areas_apart(
    width: u16,
    height: u16,
    circle: Area,
    waveform: Area,
    spectrum: Area,
)
    requires
        circle.x == 0 && circle.y == 0,
        circle.height == height / 2,
        circle.width == least(2 * (height / 2), width as int),
        waveform.x == least(height as int, width as int),
        waveform.y == 0,
        waveform.height == height / 2,
        spectrum.y == height / 2,
    ensures
        circle.x + circle.width <= waveform.x,
        circle.y + circle.height <= spectrum.y,
        waveform.y + waveform.height <= spectrum.y,
{
}

} // verus!
