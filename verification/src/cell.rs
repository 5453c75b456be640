use vstd::prelude::*;

verus! {

/// One character cell of the grid: a displayable glyph plus a 16-bit
/// attribute code. The low nibble of the attribute selects the foreground
/// color and the next nibble the background color; the rasterizer never
/// interprets the bits, it only stores and copies them.
#[derive(Clone, Copy, PartialEq, Eq, Structural, Debug)]
pub struct Cell {
    pub glyph: char,
    pub attr: u16,
}

impl Cell {
    /// The blank cell: a space glyph with attribute 0.
    pub open spec fn blank_spec() -> Cell {
        Cell { glyph: ' ', attr: 0 }
    }

    /// The blank cell: a space glyph with attribute 0.
    #[verifier::when_used_as_spec(blank_spec)]
    pub fn blank() -> (c: Cell)
        ensures
            c == Cell::blank_spec(),
    {
        Cell { glyph: ' ', attr: 0 }
    }

    /// Builds the cell that a drawing call with this glyph and attribute
    /// writes.
    pub fn new(glyph: char, attr: u16) -> (c: Cell)
        ensures
            c == (Cell { glyph, attr }),
    {
        Cell { glyph, attr }
    }
}

} // verus!
