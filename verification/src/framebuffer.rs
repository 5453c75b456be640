use vstd::prelude::*;
use crate::cell::Cell;
use crate::grid::Grid;
use crate::grid::lemma_index_of_bounds;
use crate::grid::lemma_index_to_coords;

verus! {

/// A rectangular, row-major grid of character cells with clipped access.
///
/// The buffer is created empty, sized by `resize`, filled through the
/// clipped `set`, and read back whole through `snapshot` for presentation.
/// Writes to coordinates outside the grid are no-ops; they never fail and
/// never resize.
pub struct FrameBuffer {
    width: i16,
    height: i16,
    cells: Vec<Cell>,
}

impl View for FrameBuffer {
    type V = Grid;

    closed spec fn view(&self) -> Grid {
        Grid { width: self.width as int, height: self.height as int, cells: self.cells@ }
    }
}

impl FrameBuffer {
    /// The buffer's invariant: its model is a well-formed grid.
    pub open spec fn wf(&self) -> bool {
        self@.wf()
    }

    /// A new buffer has zero size; it accepts no addressable writes until
    /// it is resized.
    pub fn new() -> (fb: FrameBuffer)
        ensures
            fb.wf(),
            fb@ == Grid::blank_of(0, 0),
    {
        let fb = FrameBuffer { width: 0, height: 0, cells: Vec::new() };
        proof {
            assert(fb@.cells =~= Grid::blank_of(0, 0).cells);
            assert(fb@ =~= Grid::blank_of(0, 0));
        }
        fb
    }

    /// Gives the buffer the requested dimensions, a negative one clamped
    /// to zero, and blanks every cell. Contents are not preserved across a
    /// resize.
    pub fn resize(&mut self, width: i16, height: i16)
        ensures
            final(self).wf(),
            final(self)@ == Grid::blank_of(
                if width < 0 { 0int } else { width as int },
                if height < 0 { 0int } else { height as int },
            ),
    {
        let w: i16 = if width < 0 { 0 } else { width };
        let h: i16 = if height < 0 { 0 } else { height };
        proof {
            assert((w as usize) * (h as usize) == (w as int) * (h as int) && (w as int) * (h as int)
                <= 0x7fff * 0x7fff) by (nonlinear_arith)
                requires
                    0 <= w <= 0x7fff,
                    0 <= h <= 0x7fff,
            ;
        }
        let n: usize = (w as usize) * (h as usize);
        let mut cells: Vec<Cell> = Vec::new();
        let mut i: usize = 0;
        while i < n
            invariant
                i <= n,
                cells@ =~= Seq::new(i as nat, |k: int| Cell::blank()),
            decreases n - i,
        {
            cells.push(Cell::blank());
            i = i + 1;
        }
        self.width = w;
        self.height = h;
        self.cells = cells;
        proof {
            let g = Grid::blank_of(w as int, h as int);
            assert(self@.cells =~= g.cells);
            assert(self@ =~= g);
        }
    }

    /// The width of the grid in cells.
    pub fn width(&self) -> (w: i16)
        ensures
            w as int == self@.width,
    {
        self.width
    }

    /// The height of the grid in cells.
    pub fn height(&self) -> (h: i16)
        ensures
            h as int == self@.height,
    {
        self.height
    }

    /// The clipped write: replaces the cell at `(x, y)` when that
    /// coordinate is addressable and does nothing otherwise. It never
    /// fails and has no other effect.
    pub fn set(&mut self, x: i16, y: i16, cell: Cell)
        requires
            old(self).wf(),
        ensures
            final(self).wf(),
            final(self)@ == old(self)@.plot(x as int, y as int, cell),
    {
        self.set_wide(x as i64, y as i64, cell);
    }

    /// The clipped write over wide coordinates, so that composite shapes
    /// may address points far outside the 16-bit range and still be
    /// clipped rather than rejected.
    pub fn set_wide(&mut self, x: i64, y: i64, cell: Cell)
        requires
            old(self).wf(),
        ensures
            final(self).wf(),
            final(self)@ == old(self)@.plot(x as int, y as int, cell),
    {
        if 0 <= x && x < self.width as i64 && 0 <= y && y < self.height as i64 {
            proof {
                lemma_index_of_bounds(self@, x as int, y as int);
                assert((y as usize) * (self.width as usize) + (x as usize) == self@.index_of(
                    x as int,
                    y as int,
                ) && (y as usize) * (self.width as usize) + (x as usize) < 0x4000_0000) by (
                nonlinear_arith)
                    requires
                        0 <= x < self.width as i64,
                        0 <= y < self.height as i64,
                        0 <= self.width <= 0x7fff,
                        0 <= self.height <= 0x7fff,
                ;
            }
            let idx: usize = (y as usize) * (self.width as usize) + (x as usize);
            self.cells[idx] = cell;
        }
    }

    /// Reads the cell at `(x, y)`; a non-addressable coordinate reads as
    /// the blank cell.
    pub fn get(&self, x: i16, y: i16) -> (c: Cell)
        requires
            self.wf(),
        ensures
            c == (if self@.addressable(x as int, y as int) {
                self@.cell_at(x as int, y as int)
            } else {
                Cell::blank()
            }),
    {
        if 0 <= x && (x as i32) < self.width as i32 && 0 <= y && (y as i32) < self.height as i32 {
            proof {
                lemma_index_of_bounds(self@, x as int, y as int);
                assert((y as usize) * (self.width as usize) + (x as usize) == self@.index_of(
                    x as int,
                    y as int,
                ) && (y as usize) * (self.width as usize) + (x as usize) < 0x4000_0000) by (
                nonlinear_arith)
                    requires
                        0 <= x < self.width as i32,
                        0 <= y < self.height as i32,
                        0 <= self.width <= 0x7fff,
                        0 <= self.height <= 0x7fff,
                ;
            }
            let idx: usize = (y as usize) * (self.width as usize) + (x as usize);
            self.cells[idx]
        } else {
            Cell::blank()
        }
    }

    /// Resets every cell to the blank cell. The dimensions do not change.
    pub fn clear(&mut self)
        requires
            old(self).wf(),
        ensures
            final(self).wf(),
            final(self)@ == Grid::blank_of(old(self)@.width, old(self)@.height),
            forall|u: int, v: int|
                old(self)@.addressable(u, v) ==> final(self)@.cell_at(u, v) == Cell::blank(),
    {
        let n: usize = self.cells.len();
        let mut i: usize = 0;
        while i < n
            invariant
                i <= n,
                n == self.cells.len(),
                self.width == old(self).width,
                self.height == old(self).height,
                forall|k: int| 0 <= k < i ==> self.cells@[k] == Cell::blank(),
            decreases n - i,
        {
            self.cells[i] = Cell::blank();
            i = i + 1;
        }
        proof {
            let g = Grid::blank_of(old(self)@.width, old(self)@.height);
            assert(self@.cells =~= g.cells);
            assert(self@ =~= g);
            assert forall|u: int, v: int| old(self)@.addressable(u, v) implies self@.cell_at(u, v)
                == Cell::blank() by {
                lemma_index_of_bounds(self@, u, v);
            }
        }
    }

    /// A read-only view of the full cell sequence, for presentation. The
    /// cells are in row-major order: index `y * width + x` holds the cell
    /// of coordinate `(x, y)`.
    pub fn snapshot(&self) -> (cells: &Vec<Cell>)
        ensures
            cells@ == self@.cells,
    {
        &self.cells
    }

    /// The cell sequence has exactly `width * height` entries, and each
    /// addressable coordinate reads its row-major entry.
    pub proof fn lemma_snapshot_indexing(&self)
        requires
            self.wf(),
        ensures
            self@.cells.len() == self@.width * self@.height,
            forall|i: int|
                0 <= i < self@.cells.len() ==> #[trigger] self@.cells[i] == self@.cell_at(
                    i % self@.width,
                    i / self@.width,
                ),
    {
        assert forall|i: int| 0 <= i < self@.cells.len() implies #[trigger] self@.cells[i]
            == self@.cell_at(i % self@.width, i / self@.width) by {
            lemma_index_to_coords(self@, i);
        }
    }
}

} // verus!
