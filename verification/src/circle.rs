use vstd::prelude::*;
use crate::cell::Cell;
use crate::framebuffer::FrameBuffer;
use crate::grid::lemma_plot_all_app;
use crate::grid::lemma_plot_all_push;
use crate::grid::lemma_plot_all_preserves;
use crate::line::draw_vline;
use crate::line::line_points;

verus! {

/// What one octant pair contributes for offsets `(a, b)` from the center:
/// in outline mode the four reflected points, in fill mode the two
/// vertical spans connecting the upper and lower reflections at both
/// horizontal offsets.
pub open spec fn octant_points(cx: int, cy: int, a: int, b: int, fill: bool) -> Seq<(int, int)> {
    if fill {
        line_points(a + cx, b + cy, a + cx, -b + cy) + line_points(
            -a + cx,
            b + cy,
            -a + cx,
            -b + cy,
        )
    } else {
        seq![(a + cx, b + cy), (-a + cx, b + cy), (a + cx, -b + cy), (-a + cx, -b + cy)]
    }
}

/// The points the midpoint loop contributes from state `(x, y, p)` on:
/// each unfolding advances `y`, updates `x` and the decision term `p`,
/// stops early when `x` falls below `y`, and otherwise emits the octant
/// pair for `(x, y)` and, when they differ, for `(y, x)`.
pub open spec fn circle_walk(cx: int, cy: int, x: int, y: int, p: int, fill: bool) -> Seq<
    (int, int),
>
    decreases x - y,
{
    if x <= y {
        Seq::empty()
    } else {
        let y2 = y + 1;
        let x2 = if p <= 0 {
            x
        } else {
            x - 1
        };
        let p2 = if p <= 0 {
            p + 2 * y2 + 1
        } else {
            p + 2 * y2 - 2 * x2 + 1
        };
        if x2 < y2 {
            Seq::empty()
        } else {
            octant_points(cx, cy, x2, y2, fill) + (if x2 != y2 {
                octant_points(cx, cy, y2, x2, fill)
            } else {
                Seq::empty()
            }) + circle_walk(cx, cy, x2, y2, p2, fill)
        }
    }
}

/// The points a circle call of radius `r` visits: for a positive radius
/// the seed (the four cardinal points in outline mode; one full vertical
/// span through the center column in fill mode) followed by the midpoint
/// loop's contributions. A non-positive radius visits nothing.
pub open spec fn circle_points(cx: int, cy: int, r: int, fill: bool) -> Seq<(int, int)> {
    let seed = if r > 0 {
        if fill {
            line_points(cx, r + cy, cx, cy - r)
        } else {
            seq![(r + cx, cy), (cx, r + cy), (cx - r, cy), (cx, cy - r)]
        }
    } else {
        Seq::empty()
    };
    seed + circle_walk(cx, cy, r, 0, 1 - r, fill)
}

/// A circle with a non-positive radius visits no point at all.
pub proof fn lemma_circle_points_empty(cx: int, cy: int, r: int, fill: bool)
    requires
        r <= 0,
    ensures
        circle_points(cx, cy, r, fill) =~= Seq::<(int, int)>::empty(),
{
}

/// Plots one octant pair: the four reflections of offset `(a, b)` in
/// outline mode, or the two vertical spans joining them in fill mode.
fn plot_octant(buf: &mut FrameBuffer, cx: i64, cy: i64, a: i64, b: i64, fill: bool, cell: Cell)
    requires
        old(buf).wf(),
        -40000 <= cx <= 40000,
        -40000 <= cy <= 40000,
        0 <= a <= 40000,
        0 <= b <= 40000,
    ensures
        final(buf).wf(),
        final(buf)@ == old(buf)@.plot_all(
            octant_points(cx as int, cy as int, a as int, b as int, fill),
            cell,
        ),
        final(buf)@.width == old(buf)@.width,
        final(buf)@.height == old(buf)@.height,
{
    let ghost g1 = buf@;
    if fill {
        draw_vline(buf, a + cx, b + cy, -b + cy, cell);
        draw_vline(buf, -a + cx, b + cy, -b + cy, cell);
        proof {
            lemma_plot_all_app(
                g1,
                line_points(a as int + cx as int, b as int + cy as int, a as int + cx as int, -b as int + cy as int),
                line_points(-a as int + cx as int, b as int + cy as int, -a as int + cx as int, -b as int + cy as int),
                cell,
            );
        }
    } else {
        let ghost p1 = (a as int + cx as int, b as int + cy as int);
        let ghost p2 = (-a as int + cx as int, b as int + cy as int);
        let ghost p3 = (a as int + cx as int, -b as int + cy as int);
        let ghost p4 = (-a as int + cx as int, -b as int + cy as int);
        buf.set_wide(a + cx, b + cy, cell);
        proof {
            assert(seq![p1].drop_first() =~= Seq::<(int, int)>::empty());
            assert(g1.plot(p1.0, p1.1, cell).plot_all(Seq::<(int, int)>::empty(), cell) == g1.plot(
                p1.0,
                p1.1,
                cell,
            ));
            assert(g1.plot_all(seq![p1], cell) == g1.plot(p1.0, p1.1, cell));
        }
        buf.set_wide(-a + cx, b + cy, cell);
        proof {
            lemma_plot_all_push(g1, seq![p1], p2, cell);
            assert(seq![p1].push(p2) =~= seq![p1, p2]);
        }
        buf.set_wide(a + cx, -b + cy, cell);
        proof {
            lemma_plot_all_push(g1, seq![p1, p2], p3, cell);
            assert(seq![p1, p2].push(p3) =~= seq![p1, p2, p3]);
        }
        buf.set_wide(-a + cx, -b + cy, cell);
        proof {
            lemma_plot_all_push(g1, seq![p1, p2, p3], p4, cell);
            assert(seq![p1, p2, p3].push(p4) =~= seq![p1, p2, p3, p4]);
            assert(octant_points(cx as int, cy as int, a as int, b as int, fill) =~= seq![p1, p2, p3, p4]);
        }
    }
}

/// Draws the circle of the given radius around `(x, y)` with the midpoint
/// algorithm: in outline mode the 8-way reflected point set, in fill mode
/// vertical spans that cover the disc. A non-positive radius draws
/// nothing.
pub fn draw_circle(
    buf: &mut FrameBuffer,
    x: i16,
    y: i16,
    r: i16,
    glyph: char,
    attr: u16,
    fill: bool,
)
    requires
        old(buf).wf(),
    ensures
        final(buf).wf(),
        final(buf)@ == old(buf)@.plot_all(
            circle_points(x as int, y as int, r as int, fill),
            Cell { glyph, attr },
        ),
        final(buf)@.width == old(buf)@.width,
        final(buf)@.height == old(buf)@.height,
        r <= 0 ==> final(buf)@ == old(buf)@,
{
    let cell = Cell::new(glyph, attr);
    let cx: i64 = x as i64;
    let cy: i64 = y as i64;
    let ri: i64 = r as i64;
    let ghost g0 = buf@;
    let ghost total = circle_points(x as int, y as int, r as int, fill);
    let ghost mut done = Seq::<(int, int)>::empty();
    let mut wx: i64 = ri;
    let mut wy: i64 = 0;
    if r > 0 {
        if fill {
            draw_vline(buf, cx, ri + cy, cy - ri, cell);
            proof {
                done = line_points(cx as int, ri as int + cy as int, cx as int, cy as int - ri as int);
            }
        } else {
            let ghost p1 = (ri as int + cx as int, cy as int);
            let ghost p2 = (cx as int, ri as int + cy as int);
            let ghost p3 = (cx as int - ri as int, cy as int);
            let ghost p4 = (cx as int, cy as int - ri as int);
            buf.set_wide(ri + cx, cy, cell);
            proof {
                assert(seq![p1].drop_first() =~= Seq::<(int, int)>::empty());
                assert(g0.plot(p1.0, p1.1, cell).plot_all(Seq::<(int, int)>::empty(), cell)
                    == g0.plot(p1.0, p1.1, cell));
                assert(g0.plot_all(seq![p1], cell) == g0.plot(p1.0, p1.1, cell));
            }
            buf.set_wide(cx, ri + cy, cell);
            proof {
                lemma_plot_all_push(g0, seq![p1], p2, cell);
                assert(seq![p1].push(p2) =~= seq![p1, p2]);
            }
            buf.set_wide(cx - ri, cy, cell);
            proof {
                lemma_plot_all_push(g0, seq![p1, p2], p3, cell);
                assert(seq![p1, p2].push(p3) =~= seq![p1, p2, p3]);
            }
            buf.set_wide(cx, cy - ri, cell);
            proof {
                lemma_plot_all_push(g0, seq![p1, p2, p3], p4, cell);
                assert(seq![p1, p2, p3].push(p4) =~= seq![p1, p2, p3, p4]);
                done = seq![p1, p2, p3, p4];
            }
        }
    }
    let mut p: i64 = 1 - ri;
    proof {
        assert(done + circle_walk(cx as int, cy as int, wx as int, wy as int, p as int, fill)
            =~= total);
        if r <= 0 {
            lemma_circle_points_empty(cx as int, cy as int, ri as int, fill);
        }
    }
    while wx > wy
        invariant_except_break
            g0.wf(),
            buf.wf(),
            buf@.width == g0.width,
            buf@.height == g0.height,
            cx == x as i64,
            cy == y as i64,
            ri == r as i64,
            -0x8000 <= ri <= 0x7fff,
            total == circle_points(x as int, y as int, r as int, fill),
            0 <= wy <= 0x8000,
            wx <= ri,
            wy > 0 ==> wy <= wx,
            wy == 0 ==> wx == ri,
            ri > 0 ==> -(1 + ri + wy * (4 * ri + 3)) <= p <= 1 + ri + wy * (4 * ri + 3),
            buf@ == g0.plot_all(done, cell),
            done + circle_walk(cx as int, cy as int, wx as int, wy as int, p as int, fill)
                == total,
        ensures
            buf.wf(),
            buf@.width == g0.width,
            buf@.height == g0.height,
            buf@ == g0.plot_all(total, cell),
        decreases wx - wy,
    {
        let ghost pre_wx = wx as int;
        let ghost pre_wy = wy as int;
        let ghost pre_p = p as int;
        let ghost pre_done = done;
        proof {
            assert(ri >= 1);
            assert(-5000000000 <= p <= 5000000000) by (nonlinear_arith)
                requires
                    -(1 + ri + wy * (4 * ri + 3)) <= p <= 1 + ri + wy * (4 * ri + 3),
                    0 <= wy <= 0x8000,
                    0 < ri <= 0x7fff,
            ;
        }
        wy = wy + 1;
        if p <= 0 {
            p = p + 2 * wy + 1;
        } else {
            wx = wx - 1;
            p = p + 2 * wy - 2 * wx + 1;
        }
        proof {
            assert((wy as int) * (4 * ri + 3) == pre_wy * (4 * ri + 3) + (4 * ri + 3)) by (
            nonlinear_arith)
                requires
                    wy as int == pre_wy + 1,
            ;
        }
        if wx < wy {
            proof {
                assert(circle_walk(cx as int, cy as int, pre_wx, pre_wy, pre_p, fill)
                    =~= Seq::<(int, int)>::empty());
                assert(pre_done + Seq::<(int, int)>::empty() =~= pre_done);
                assert(buf@ == g0.plot_all(total, cell));
            }
            break;
        }
        let ghost chunk = octant_points(cx as int, cy as int, wx as int, wy as int, fill)
            + (if wx as int != wy as int {
            octant_points(cx as int, cy as int, wy as int, wx as int, fill)
        } else {
            Seq::<(int, int)>::empty()
        });
        proof {
            assert(circle_walk(cx as int, cy as int, pre_wx, pre_wy, pre_p, fill) == chunk
                + circle_walk(cx as int, cy as int, wx as int, wy as int, p as int, fill));
        }
        plot_octant(buf, cx, cy, wx, wy, fill, cell);
        proof {
            lemma_plot_all_app(
                g0,
                pre_done,
                octant_points(cx as int, cy as int, wx as int, wy as int, fill),
                cell,
            );
            done = pre_done + octant_points(cx as int, cy as int, wx as int, wy as int, fill);
        }
        if wx != wy {
            let ghost mid_done = done;
            plot_octant(buf, cx, cy, wy, wx, fill, cell);
            proof {
                lemma_plot_all_app(
                    g0,
                    mid_done,
                    octant_points(cx as int, cy as int, wy as int, wx as int, fill),
                    cell,
                );
                done = mid_done + octant_points(cx as int, cy as int, wy as int, wx as int, fill);
            }
        }
        proof {
            assert(done =~= pre_done + chunk);
            assert(done + circle_walk(cx as int, cy as int, wx as int, wy as int, p as int, fill)
                =~= pre_done + (chunk + circle_walk(
                cx as int,
                cy as int,
                wx as int,
                wy as int,
                p as int,
                fill,
            )));
        }
    }
    proof {
        lemma_plot_all_preserves(g0, total, cell);
        if r <= 0 {
            lemma_circle_points_empty(x as int, y as int, r as int, fill);
            assert(g0.plot_all(Seq::<(int, int)>::empty(), cell) == g0);
        }
    }
}

} // verus!
