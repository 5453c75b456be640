use vstd::prelude::*;
use crate::cell::Cell;
use crate::framebuffer::FrameBuffer;
use crate::grid::lemma_plot_all_app;
use crate::line::draw_line;
use crate::line::line_points;
use crate::raster::draw_point;

verus! {

/// The vertex list as ideal integer coordinates.
pub open spec fn int_points(s: Seq<(i16, i16)>) -> Seq<(int, int)> {
    Seq::new(s.len(), |i: int| (s[i].0 as int, s[i].1 as int))
}

/// The vertex that edge `i` runs to: the next vertex, and for the last
/// edge the first vertex, closing the outline.
pub open spec fn edge_target(pts: Seq<(int, int)>, i: int) -> (int, int) {
    if i == pts.len() - 1 {
        pts[0]
    } else {
        pts[i + 1]
    }
}

/// The points of edge `i` of the outline.
pub open spec fn edge_points(pts: Seq<(int, int)>, i: int) -> Seq<(int, int)> {
    line_points(pts[i].0, pts[i].1, edge_target(pts, i).0, edge_target(pts, i).1)
}

/// The points of the outline's edges from edge `i` on, in drawing order.
pub open spec fn polygon_edges(pts: Seq<(int, int)>, i: int) -> Seq<(int, int)>
    decreases pts.len() - i,
{
    if i < 0 || i >= pts.len() {
        Seq::empty()
    } else {
        edge_points(pts, i) + polygon_edges(pts, i + 1)
    }
}

/// The points a polygon call visits: none for an empty vertex list, the
/// one vertex alone for a single vertex, and otherwise the line between
/// each consecutive pair of vertices followed by the closing line from
/// the last vertex back to the first.
pub open spec fn polygon_points(pts: Seq<(int, int)>) -> Seq<(int, int)> {
    if pts.len() == 0 {
        Seq::empty()
    } else if pts.len() == 1 {
        seq![pts[0]]
    } else {
        polygon_edges(pts, 0)
    }
}

/// A concatenation holds a value iff one of its halves does.
proof fn lemma_concat_contains<T>(a: Seq<T>, b: Seq<T>, q: T)
    ensures
        (a + b).contains(q) <==> a.contains(q) || b.contains(q),
{
    if a.contains(q) {
        let k = choose|k: int| 0 <= k < a.len() && a[k] == q;
        assert((a + b)[k] == q);
    }
    if b.contains(q) {
        let k = choose|k: int| 0 <= k < b.len() && b[k] == q;
        assert((a + b)[a.len() + k] == q);
    }
    if (a + b).contains(q) {
        let k = choose|k: int| 0 <= k < (a + b).len() && (a + b)[k] == q;
        if k < a.len() {
            assert(a[k] == q);
        } else {
            assert(b[k - a.len()] == q);
        }
    }
}

/// A point lies on the outline's remaining edges iff it lies on one of
/// them.
proof fn lemma_polygon_edges_membership(pts: Seq<(int, int)>, i: int, q: (int, int))
    requires
        0 <= i <= pts.len(),
    ensures
        polygon_edges(pts, i).contains(q) <==> exists|j: int|
            i <= j < pts.len() && #[trigger] edge_points(pts, j).contains(q),
    decreases pts.len() - i,
{
    if i < pts.len() {
        lemma_concat_contains(edge_points(pts, i), polygon_edges(pts, i + 1), q);
        lemma_polygon_edges_membership(pts, i + 1, q);
        if edge_points(pts, i).contains(q) {
            assert(exists|j: int| i <= j < pts.len() && #[trigger] edge_points(pts, j).contains(q))
                by {
                assert(edge_points(pts, i).contains(q));
            }
        }
    }
}

/// A polygon outline with at least two vertices visits exactly the union
/// of its `n` connecting edges and the closing edge: a point is drawn iff
/// it lies on the line of some edge `j`, each edge running from vertex
/// `j` to `edge_target`.
pub proof fn lemma_polygon_membership(pts: Seq<(int, int)>, q: (int, int))
    requires
        pts.len() >= 2,
    ensures
        polygon_points(pts).contains(q) <==> exists|j: int|
            0 <= j < pts.len() && #[trigger] edge_points(pts, j).contains(q),
{
    lemma_polygon_edges_membership(pts, 0, q);
}

/// Draws the closed outline of the given vertex list: a line between each
/// consecutive pair of vertices and a closing line from the last vertex
/// back to the first. An empty list draws nothing; a single vertex is one
/// plotted point. The interior is not filled.
pub fn draw_polygon(buf: &mut FrameBuffer, points: &Vec<(i16, i16)>, glyph: char, attr: u16)
    requires
        old(buf).wf(),
    ensures
        final(buf).wf(),
        final(buf)@ == old(buf)@.plot_all(
            polygon_points(int_points(points@)),
            Cell { glyph, attr },
        ),
        final(buf)@.width == old(buf)@.width,
        final(buf)@.height == old(buf)@.height,
        points@.len() == 0 ==> final(buf)@ == old(buf)@,
        points@.len() == 1 ==> final(buf)@ == old(buf)@.plot(
            points@[0].0 as int,
            points@[0].1 as int,
            Cell { glyph, attr },
        ),
{
    let ghost ipts = int_points(points@);
    let ghost g0 = buf@;
    let ghost cell = Cell { glyph, attr };
    let n: usize = points.len();
    if n == 0 {
        return ;
    }
    if n == 1 {
        let p = points[0];
        draw_point(buf, p.0, p.1, glyph, attr);
        proof {
            assert(polygon_points(ipts) =~= seq![ipts[0]]);
            assert(g0.plot_all(polygon_points(ipts), cell) == g0.plot(
                ipts[0].0,
                ipts[0].1,
                cell,
            ).plot_all(polygon_points(ipts).drop_first(), cell));
            assert(polygon_points(ipts).drop_first() =~= Seq::<(int, int)>::empty());
        }
        return ;
    }
    let ghost mut done = Seq::<(int, int)>::empty();
    proof {
        assert(done + polygon_edges(ipts, 0) =~= polygon_edges(ipts, 0));
    }
    let mut i: usize = 0;
    while i < n
        invariant
            g0.wf(),
            buf.wf(),
            buf@.width == g0.width,
            buf@.height == g0.height,
            2 <= n,
            n == points@.len(),
            cell == (Cell { glyph, attr }),
            ipts == int_points(points@),
            i <= n,
            buf@ == g0.plot_all(done, cell),
            done + polygon_edges(ipts, i as int) == polygon_edges(ipts, 0),
        decreases n - i,
    {
        let p = points[i];
        let ghost pre_done = done;
        if i == n - 1 {
            let q = points[0];
            draw_line(buf, p, q, glyph, attr);
        } else {
            let q = points[i + 1];
            draw_line(buf, p, q, glyph, attr);
        }
        proof {
            assert(ipts[i as int] == (p.0 as int, p.1 as int));
            if i == n - 1 {
                assert(edge_target(ipts, i as int) == (
                    points@[0].0 as int,
                    points@[0].1 as int,
                ));
            } else {
                assert(edge_target(ipts, i as int) == (
                    points@[i as int + 1].0 as int,
                    points@[i as int + 1].1 as int,
                ));
            }
            assert(edge_points(ipts, i as int) == line_points(
                p.0 as int,
                p.1 as int,
                edge_target(ipts, i as int).0,
                edge_target(ipts, i as int).1,
            ));
            lemma_plot_all_app(g0, pre_done, edge_points(ipts, i as int), cell);
            done = pre_done + edge_points(ipts, i as int);
            assert(done + polygon_edges(ipts, i as int + 1) =~= pre_done + polygon_edges(
                ipts,
                i as int,
            ));
        }
        i = i + 1;
    }
    proof {
        assert(polygon_edges(ipts, n as int) =~= Seq::<(int, int)>::empty());
        assert(done + polygon_edges(ipts, n as int) =~= done);
        assert(buf@ == g0.plot_all(polygon_points(ipts), cell));
    }
}

} // verus!
