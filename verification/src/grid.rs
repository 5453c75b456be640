use vstd::prelude::*;
use crate::cell::Cell;

verus! {

/// The mathematical model of a frame buffer: a width, a height, and a
/// row-major sequence of cells of length `width * height`.
#[verifier::ext_equal]
pub ghost struct Grid {
    pub width: int,
    pub height: int,
    pub cells: Seq<Cell>,
}

impl Grid {
    /// Well-formedness: the dimensions are non-negative, fit the 16-bit
    /// screen coordinate range, and the cell sequence has exactly
    /// `width * height` entries.
    pub open spec fn wf(self) -> bool {
        &&& 0 <= self.width <= 0x7fff
        &&& 0 <= self.height <= 0x7fff
        &&& self.cells.len() == self.width * self.height
    }

    /// A coordinate is addressable iff it lies inside the grid.
    pub open spec fn addressable(self, x: int, y: int) -> bool {
        0 <= x < self.width && 0 <= y < self.height
    }

    /// Row-major index of a coordinate.
    pub open spec fn index_of(self, x: int, y: int) -> int {
        y * self.width + x
    }

    /// The cell stored at an addressable coordinate.
    pub open spec fn cell_at(self, x: int, y: int) -> Cell {
        self.cells[self.index_of(x, y)]
    }

    /// A clipped write: replaces the cell at `(x, y)` when the coordinate
    /// is addressable, and leaves the grid unchanged otherwise.
    pub open spec fn plot(self, x: int, y: int, c: Cell) -> Grid {
        if self.addressable(x, y) {
            Grid { cells: self.cells.update(self.index_of(x, y), c), ..self }
        } else {
            self
        }
    }

    /// Clipped writes of the same cell at each point of `pts`, in order.
    pub open spec fn plot_all(self, pts: Seq<(int, int)>, c: Cell) -> Grid
        decreases pts.len(),
    {
        if pts.len() == 0 {
            self
        } else {
            self.plot(pts[0].0, pts[0].1, c).plot_all(pts.drop_first(), c)
        }
    }

    /// The grid of the given dimensions whose cells are all blank.
    pub open spec fn blank_of(width: int, height: int) -> Grid {
        Grid {
            width,
            height,
            cells: Seq::new((width * height) as nat, |i: int| Cell::blank()),
        }
    }
}

/// The row-major index of an addressable coordinate lies inside the cell
/// sequence.
pub proof fn lemma_index_of_bounds(g: Grid, x: int, y: int)
    requires
        g.wf(),
        g.addressable(x, y),
    ensures
        0 <= g.index_of(x, y) < g.cells.len(),
{
    assert(0 <= y * g.width + x < g.width * g.height) by (nonlinear_arith)
        requires
            0 <= x < g.width,
            0 <= y < g.height,
    ;
}

/// Distinct addressable coordinates have distinct row-major indices.
pub proof fn lemma_index_of_injective(g: Grid, x: int, y: int, u: int, v: int)
    requires
        g.wf(),
        g.addressable(x, y),
        g.addressable(u, v),
        g.index_of(x, y) == g.index_of(u, v),
    ensures
        x == u && y == v,
{
    assert(x == u && y == v) by (nonlinear_arith)
        requires
            0 <= x < g.width,
            0 <= y < g.height,
            0 <= u < g.width,
            0 <= v < g.height,
            y * g.width + x == v * g.width + u,
    ;
}

/// A single clipped write keeps the dimensions and well-formedness, stores
/// the cell at its target when that is addressable, and changes no other
/// cell.
pub proof fn lemma_plot_cells(g: Grid, x: int, y: int, c: Cell)
    requires
        g.wf(),
    ensures
        g.plot(x, y, c).wf(),
        g.plot(x, y, c).width == g.width,
        g.plot(x, y, c).height == g.height,
        g.addressable(x, y) ==> g.plot(x, y, c).cell_at(x, y) == c,
        forall|u: int, v: int|
            g.addressable(u, v) && !(u == x && v == y) ==> g.plot(x, y, c).cell_at(u, v)
                == g.cell_at(u, v),
{
    if g.addressable(x, y) {
        lemma_index_of_bounds(g, x, y);
        assert forall|u: int, v: int|
            g.addressable(u, v) && !(u == x && v == y) implies g.plot(x, y, c).cell_at(u, v)
            == g.cell_at(u, v) by {
            lemma_index_of_bounds(g, u, v);
            if g.index_of(u, v) == g.index_of(x, y) {
                lemma_index_of_injective(g, x, y, u, v);
            }
        }
    }
}

/// Plotting a list of points keeps the dimensions and well-formedness.
pub proof fn lemma_plot_all_preserves(g: Grid, pts: Seq<(int, int)>, c: Cell)
    requires
        g.wf(),
    ensures
        g.plot_all(pts, c).wf(),
        g.plot_all(pts, c).width == g.width,
        g.plot_all(pts, c).height == g.height,
    decreases pts.len(),
{
    if pts.len() > 0 {
        lemma_plot_cells(g, pts[0].0, pts[0].1, c);
        lemma_plot_all_preserves(g.plot(pts[0].0, pts[0].1, c), pts.drop_first(), c);
    }
}

/// Plotting `pts` and then one more point is plotting `pts.push(p)`.
pub proof fn lemma_plot_all_push(g: Grid, pts: Seq<(int, int)>, p: (int, int), c: Cell)
    ensures
        g.plot_all(pts.push(p), c) == g.plot_all(pts, c).plot(p.0, p.1, c),
    decreases pts.len(),
{
    let s = pts.push(p);
    assert(s.len() == pts.len() + 1);
    if pts.len() == 0 {
        assert(s[0] == p);
        assert(s.drop_first() =~= Seq::<(int, int)>::empty());
        assert(g.plot_all(s, c) == g.plot(p.0, p.1, c).plot_all(s.drop_first(), c));
        assert(g.plot(p.0, p.1, c).plot_all(s.drop_first(), c) == g.plot(p.0, p.1, c));
        assert(g.plot_all(pts, c) == g);
    } else {
        assert(s[0] == pts[0]);
        assert(s.drop_first() =~= pts.drop_first().push(p));
        let g1 = g.plot(pts[0].0, pts[0].1, c);
        assert(g.plot_all(s, c) == g1.plot_all(s.drop_first(), c));
        lemma_plot_all_push(g1, pts.drop_first(), p, c);
        assert(g1.plot_all(pts.drop_first().push(p), c) == g1.plot_all(pts.drop_first(), c).plot(
            p.0,
            p.1,
            c,
        ));
        assert(g.plot_all(pts, c) == g1.plot_all(pts.drop_first(), c));
    }
}

/// Plotting a concatenation is plotting the two halves in turn.
pub proof fn lemma_plot_all_app(g: Grid, s1: Seq<(int, int)>, s2: Seq<(int, int)>, c: Cell)
    ensures
        g.plot_all(s1 + s2, c) == g.plot_all(s1, c).plot_all(s2, c),
    decreases s1.len(),
{
    if s1.len() == 0 {
        assert(s1 + s2 =~= s2);
    } else {
        assert((s1 + s2)[0] == s1[0]);
        assert((s1 + s2).drop_first() =~= s1.drop_first() + s2);
        lemma_plot_all_app(g.plot(s1[0].0, s1[0].1, c), s1.drop_first(), s2, c);
    }
}

/// What a sequence of clipped writes of one cell leaves in the grid: every
/// addressable point of the list now holds `c`, and every other cell is
/// unchanged.
pub proof fn lemma_plot_all_cells(g: Grid, pts: Seq<(int, int)>, c: Cell)
    requires
        g.wf(),
    ensures
        g.plot_all(pts, c).wf(),
        g.plot_all(pts, c).width == g.width,
        g.plot_all(pts, c).height == g.height,
        forall|u: int, v: int|
            g.addressable(u, v) ==> g.plot_all(pts, c).cell_at(u, v) == (if pts.contains(
                (u, v),
            ) {
                c
            } else {
                g.cell_at(u, v)
            }),
    decreases pts.len(),
{
    lemma_plot_all_preserves(g, pts, c);
    if pts.len() > 0 {
        let p0 = pts[0];
        let g1 = g.plot(p0.0, p0.1, c);
        let rest = pts.drop_first();
        lemma_plot_cells(g, p0.0, p0.1, c);
        lemma_plot_all_cells(g1, rest, c);
        assert(g.plot_all(pts, c) == g1.plot_all(rest, c));
        assert forall|u: int, v: int| g.addressable(u, v) implies g.plot_all(pts, c).cell_at(u, v)
            == (if pts.contains((u, v)) {
            c
        } else {
            g.cell_at(u, v)
        }) by {
            assert(g1.addressable(u, v));
            if rest.contains((u, v)) {
                assert(g1.plot_all(rest, c).cell_at(u, v) == c);
                assert(pts.contains((u, v))) by {
                    let k = choose|k: int| 0 <= k < rest.len() && rest[k] == (u, v);
                    assert(pts[k + 1] == (u, v));
                }
            } else if (u, v) == p0 {
                assert(u == p0.0 && v == p0.1);
                assert(g1.cell_at(u, v) == c);
                assert(g1.plot_all(rest, c).cell_at(u, v) == g1.cell_at(u, v));
                assert(pts.contains((u, v))) by {
                    assert(pts[0] == (u, v));
                }
            } else {
                assert(g1.cell_at(u, v) == g.cell_at(u, v));
                assert(g1.plot_all(rest, c).cell_at(u, v) == g1.cell_at(u, v));
                assert(!pts.contains((u, v))) by {
                    if pts.contains((u, v)) {
                        let k = choose|k: int| 0 <= k < pts.len() && pts[k] == (u, v);
                        assert(k != 0);
                        assert(rest[k - 1] == (u, v));
                    }
                }
            }
        }
    }
}

/// Every valid cell index is the row-major index of exactly one addressable
/// coordinate.
pub proof fn lemma_index_to_coords(g: Grid, i: int)
    requires
        g.wf(),
        0 <= i < g.cells.len(),
    ensures
        g.width > 0,
        g.addressable(i % g.width, i / g.width),
        g.index_of(i % g.width, i / g.width) == i,
{
    assert(g.width > 0) by (nonlinear_arith)
        requires
            0 <= g.width,
            0 <= g.height,
            0 <= i < g.width * g.height,
    ;
    assert(0 <= i % g.width < g.width && (i / g.width) * g.width + i % g.width == i) by (
    nonlinear_arith)
        requires
            g.width > 0,
            0 <= i,
    ;
    assert(0 <= i / g.width < g.height) by (nonlinear_arith)
        requires
            g.width > 0,
            0 <= i < g.width * g.height,
            (i / g.width) * g.width + i % g.width == i,
            0 <= i % g.width < g.width,
    ;
}

/// Two point lists that cover the same set of points leave the same grid,
/// because each write stores the same cell and writes are idempotent.
pub proof fn lemma_plot_all_same_points(g: Grid, s1: Seq<(int, int)>, s2: Seq<(int, int)>, c: Cell)
    requires
        g.wf(),
        s1.to_set() == s2.to_set(),
    ensures
        g.plot_all(s1, c) == g.plot_all(s2, c),
{
    lemma_plot_all_cells(g, s1, c);
    lemma_plot_all_cells(g, s2, c);
    let g1 = g.plot_all(s1, c);
    let g2 = g.plot_all(s2, c);
    assert forall|i: int| 0 <= i < g1.cells.len() implies g1.cells[i] == g2.cells[i] by {
        lemma_index_to_coords(g, i);
        let u = i % g.width;
        let v = i / g.width;
        assert(s1.contains((u, v)) <==> s1.to_set().contains((u, v)));
        assert(s2.contains((u, v)) <==> s2.to_set().contains((u, v)));
        assert(g1.cell_at(u, v) == g2.cell_at(u, v));
    }
    assert(g1.cells =~= g2.cells);
    assert(g1 =~= g2);
}

} // verus!
