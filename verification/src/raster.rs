use vstd::prelude::*;
use crate::cell::Cell;
use crate::framebuffer::FrameBuffer;
use crate::grid::Grid;
use crate::grid::lemma_plot_all_push;
use crate::grid::lemma_plot_cells;

verus! {

/// Writes one cell at `(x, y)`. A non-addressable coordinate leaves the
/// entire buffer unchanged.
pub fn draw_point(buf: &mut FrameBuffer, x: i16, y: i16, glyph: char, attr: u16)
    requires
        old(buf).wf(),
    ensures
        final(buf).wf(),
        final(buf)@ == old(buf)@.plot(x as int, y as int, Cell { glyph, attr }),
        !old(buf)@.addressable(x as int, y as int) ==> final(buf)@ == old(buf)@,
{
    buf.set(x, y, Cell::new(glyph, attr));
}

/// The grid after writing the glyphs of `chars` left to right starting at
/// `(x, y)`, each with the same attribute, each write clipped on its own.
pub open spec fn string_write(g: Grid, x: int, y: int, chars: Seq<char>, attr: u16) -> Grid
    decreases chars.len(),
{
    if chars.len() == 0 {
        g
    } else {
        string_write(
            g.plot(x, y, Cell { glyph: chars[0], attr }),
            x + 1,
            y,
            chars.drop_first(),
            attr,
        )
    }
}

/// Writing a string keeps the dimensions and well-formedness.
pub proof fn lemma_string_write_preserves(g: Grid, x: int, y: int, chars: Seq<char>, attr: u16)
    requires
        g.wf(),
    ensures
        string_write(g, x, y, chars, attr).wf(),
        string_write(g, x, y, chars, attr).width == g.width,
        string_write(g, x, y, chars, attr).height == g.height,
    decreases chars.len(),
{
    if chars.len() > 0 {
        lemma_plot_cells(g, x, y, Cell { glyph: chars[0], attr });
        lemma_string_write_preserves(
            g.plot(x, y, Cell { glyph: chars[0], attr }),
            x + 1,
            y,
            chars.drop_first(),
            attr,
        );
    }
}

/// Writing one more character on the right is one more clipped write at
/// the next column.
proof fn lemma_string_write_push(g: Grid, x: int, y: int, chars: Seq<char>, c: char, attr: u16)
    ensures
        string_write(g, x, y, chars.push(c), attr) == string_write(g, x, y, chars, attr).plot(
            x + chars.len(),
            y,
            Cell { glyph: c, attr },
        ),
    decreases chars.len(),
{
    let s = chars.push(c);
    if chars.len() == 0 {
        assert(s[0] == c);
        assert(s.drop_first() =~= Seq::<char>::empty());
        let gp = g.plot(x, y, Cell { glyph: c, attr });
        assert(string_write(g, x, y, s, attr) == string_write(gp, x + 1, y, s.drop_first(), attr));
        assert(string_write(gp, x + 1, y, Seq::<char>::empty(), attr) == gp);
        assert(string_write(g, x, y, chars, attr) == g);
        assert(x + chars.len() == x);
    } else {
        assert(s[0] == chars[0]);
        assert(s.drop_first() =~= chars.drop_first().push(c));
        lemma_string_write_push(
            g.plot(x, y, Cell { glyph: chars[0], attr }),
            x + 1,
            y,
            chars.drop_first(),
            c,
            attr,
        );
    }
}

/// Characters that start at or beyond the right edge are all clipped, so
/// they change nothing.
proof fn lemma_string_write_offgrid(g: Grid, x: int, y: int, chars: Seq<char>, attr: u16)
    requires
        x >= g.width,
    ensures
        string_write(g, x, y, chars, attr) == g,
    decreases chars.len(),
{
    if chars.len() > 0 {
        assert(!g.addressable(x, y));
        lemma_string_write_offgrid(g, x + 1, y, chars.drop_first(), attr);
    }
}

/// A string write is the writes of a prefix followed by the writes of the
/// rest, shifted past the prefix.
proof fn lemma_string_write_split(g: Grid, x: int, y: int, chars: Seq<char>, attr: u16, j: int)
    requires
        0 <= j <= chars.len(),
    ensures
        string_write(g, x, y, chars, attr) == string_write(
            string_write(g, x, y, chars.take(j), attr),
            x + j,
            y,
            chars.skip(j),
            attr,
        ),
    decreases j,
{
    if j == 0 {
        assert(chars.take(0) =~= Seq::<char>::empty());
        assert(chars.skip(0) =~= chars);
    } else {
        lemma_string_write_split(g, x, y, chars, attr, j - 1);
        assert(chars.take(j) =~= chars.take(j - 1).push(chars[j - 1]));
        lemma_string_write_push(g, x, y, chars.take(j - 1), chars[j - 1], attr);
        let gj = string_write(g, x, y, chars.take(j - 1), attr);
        let pj = gj.plot(x + j - 1, y, Cell { glyph: chars[j - 1], attr });
        assert(chars.skip(j - 1)[0] == chars[j - 1]);
        assert(chars.skip(j - 1).drop_first() =~= chars.skip(j));
        assert(string_write(gj, x + j - 1, y, chars.skip(j - 1), attr) == string_write(
            pj,
            x + j,
            y,
            chars.skip(j),
            attr,
        ));
    }
}

/// Writes the glyphs of `text` at `(x + i, y)` for each character index
/// `i`, left to right, without wrapping; every character write is clipped
/// on its own, so a string straddling an edge is truncated in place.
pub fn draw_string(buf: &mut FrameBuffer, x: i16, y: i16, text: &str, attr: u16)
    requires
        old(buf).wf(),
    ensures
        final(buf).wf(),
        final(buf)@ == string_write(old(buf)@, x as int, y as int, text@, attr),
        final(buf)@.width == old(buf)@.width,
        final(buf)@.height == old(buf)@.height,
{
    let len: usize = text.unicode_len();
    let ghost g0 = buf@;
    proof {
        assert(text@.take(len as int) =~= text@);
    }
    let mut i: usize = 0;
    while i < len
        invariant_except_break
            text@.take(len as int) == text@,
            g0.wf(),
            buf.wf(),
            buf@.width == g0.width,
            buf@.height == g0.height,
            i <= len,
            i <= 0x10000,
            len == text@.len(),
            buf@ == string_write(g0, x as int, y as int, text@.take(i as int), attr),
        ensures
            buf.wf(),
            buf@.width == g0.width,
            buf@.height == g0.height,
            buf@ == string_write(g0, x as int, y as int, text@, attr),
        decreases len - i,
    {
        let xi: i64 = x as i64 + i as i64;
        if xi >= 0x8000 {
            proof {
                lemma_string_write_split(g0, x as int, y as int, text@, attr, i as int);
                lemma_string_write_preserves(g0, x as int, y as int, text@.take(i as int), attr);
                lemma_string_write_offgrid(
                    buf@,
                    x as int + i as int,
                    y as int,
                    text@.skip(i as int),
                    attr,
                );
            }
            break;
        }
        let c = text.get_char(i);
        buf.set_wide(xi, y as i64, Cell::new(c, attr));
        proof {
            assert(text@.take(i as int + 1) =~= text@.take(i as int).push(text@[i as int]));
            lemma_string_write_push(
                g0,
                x as int,
                y as int,
                text@.take(i as int),
                text@[i as int],
                attr,
            );
        }
        i = i + 1;
    }
}

/// One row of a rectangle: `w` points starting at `(x, y)`, left to
/// right. Empty when `w <= 0`.
pub open spec fn row_points(x: int, y: int, w: int) -> Seq<(int, int)> {
    Seq::new(if w <= 0 {
        0
    } else {
        w as nat
    }, |j: int| (x + j, y))
}

/// The points of a `w` by `h` rectangle whose top-left cell is `(x, y)`,
/// row by row from the top, each row left to right. Empty when either
/// dimension is not positive.
pub open spec fn rect_points(x: int, y: int, w: int, h: int) -> Seq<(int, int)>
    decreases h,
{
    if h <= 0 {
        Seq::empty()
    } else {
        rect_points(x, y, w, h - 1) + row_points(x, y + h - 1, w)
    }
}

/// A rectangle with a non-positive dimension has no points.
pub proof fn lemma_rect_points_empty(x: int, y: int, w: int, h: int)
    requires
        w <= 0 || h <= 0,
    ensures
        rect_points(x, y, w, h) =~= Seq::<(int, int)>::empty(),
    decreases h,
{
    if h > 0 {
        lemma_rect_points_empty(x, y, w, h - 1);
    }
}

/// Fills the `width` by `height` rectangle whose top-left cell is
/// `(x, y)` with one cell, each write clipped on its own. A call with a
/// non-positive width or height is a no-op.
pub fn fill_rect(
    buf: &mut FrameBuffer,
    x: i16,
    y: i16,
    width: i16,
    height: i16,
    glyph: char,
    attr: u16,
)
    requires
        old(buf).wf(),
    ensures
        final(buf).wf(),
        final(buf)@ == old(buf)@.plot_all(
            rect_points(x as int, y as int, width as int, height as int),
            Cell { glyph, attr },
        ),
        final(buf)@.width == old(buf)@.width,
        final(buf)@.height == old(buf)@.height,
        width <= 0 || height <= 0 ==> final(buf)@ == old(buf)@,
{
    let cell = Cell::new(glyph, attr);
    let ghost g0 = buf@;
    let ghost pts = rect_points(x as int, y as int, width as int, height as int);
    if width <= 0 && height <= 0 {
        proof {
            lemma_rect_points_empty(x as int, y as int, width as int, height as int);
        }
        return ;
    }
    let mut i: i16 = 0;
    while i < height
        invariant
            g0.wf(),
            0 <= i,
            height > 0 ==> i <= height,
            height <= 0 ==> i == 0,
            buf.wf(),
            buf@.width == g0.width,
            buf@.height == g0.height,
            buf@ == g0.plot_all(rect_points(x as int, y as int, width as int, i as int), cell),
        decreases height - i,
    {
        let mut j: i16 = 0;
        while j < width
            invariant
                g0.wf(),
                0 <= i < height,
                0 <= j,
                width > 0 ==> j <= width,
                width <= 0 ==> j == 0,
                buf.wf(),
                buf@.width == g0.width,
                buf@.height == g0.height,
                buf@ == g0.plot_all(
                    rect_points(x as int, y as int, width as int, i as int) + row_points(
                        x as int,
                        y as int + i as int,
                        j as int,
                    ),
                    cell,
                ),
            decreases width - j,
        {
            buf.set_wide(x as i64 + j as i64, y as i64 + i as i64, cell);
            proof {
                let rows = rect_points(x as int, y as int, width as int, i as int);
                let row = row_points(x as int, y as int + i as int, j as int);
                let p = (x as int + j as int, y as int + i as int);
                assert((rows + row).push(p) =~= rows + row_points(
                    x as int,
                    y as int + i as int,
                    j as int + 1,
                ));
                lemma_plot_all_push(g0, rows + row, p, cell);
            }
            j = j + 1;
        }
        proof {
            if width <= 0 {
                assert(rect_points(x as int, y as int, width as int, i as int) + row_points(
                    x as int,
                    y as int + i as int,
                    0,
                ) =~= rect_points(x as int, y as int, width as int, i as int + 1));
            } else {
                assert(j == width);
                assert(rect_points(x as int, y as int, width as int, i as int) + row_points(
                    x as int,
                    y as int + i as int,
                    width as int,
                ) =~= rect_points(x as int, y as int, width as int, i as int + 1));
            }
        }
        i = i + 1;
    }
    proof {
        if height <= 0 {
            lemma_rect_points_empty(x as int, y as int, width as int, height as int);
            assert(rect_points(x as int, y as int, width as int, 0) =~= pts);
        }
        if width <= 0 {
            lemma_rect_points_empty(x as int, y as int, width as int, height as int);
            lemma_rect_points_empty(x as int, y as int, width as int, i as int);
        }
    }
}

/// Resets every cell of the buffer to the blank cell. The dimensions do
/// not change.
pub fn clear(buf: &mut FrameBuffer)
    requires
        old(buf).wf(),
    ensures
        final(buf).wf(),
        final(buf)@ == Grid::blank_of(old(buf)@.width, old(buf)@.height),
        forall|u: int, v: int|
            old(buf)@.addressable(u, v) ==> final(buf)@.cell_at(u, v) == Cell::blank(),
        final(buf)@.width == old(buf)@.width,
        final(buf)@.height == old(buf)@.height,
{
    buf.clear();
}

} // verus!
