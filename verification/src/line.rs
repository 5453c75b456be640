use vstd::prelude::*;
use vstd::math::abs;
use vstd::math::max;
use vstd::math::min;
use crate::cell::Cell;
use crate::framebuffer::FrameBuffer;
use crate::grid::Grid;
use crate::grid::lemma_plot_all_preserves;
use crate::grid::lemma_plot_all_push;
use crate::grid::lemma_plot_all_same_points;

verus! {

/// The direction one axis of the walk steps: `1` when the start coordinate
/// is below the target, else `-1` (also when they are equal, in which case
/// the walk never steps on that axis).
pub open spec fn step_dir(a: int, b: int) -> int {
    if a < b {
        1
    } else {
        -1
    }
}

/// The states the error-tracking line walk visits, from `(x, y)` to
/// `(bx, by)`: each unfolding emits the current point, and the walk ends
/// when the target is reached. `dx` is the absolute x-distance, `dy` the
/// negated absolute y-distance of the whole line, and `err` the running
/// error term, `e2 = 2 * err` deciding which axes step.
///
/// The walk from a start state of the algorithm always moves toward the
/// target, which the measure-guard below makes evident to the termination
/// checker; the guard's other arm is never reached from such a state.
pub open spec fn line_walk(
    x: int,
    y: int,
    bx: int,
    by: int,
    sx: int,
    sy: int,
    dx: int,
    dy: int,
    err: int,
) -> Seq<(int, int)>
    decreases abs(bx - x) + abs(by - y),
{
    if x == bx && y == by {
        seq![(x, y)]
    } else {
        let e2 = 2 * err;
        let x2 = if e2 >= dy {
            x + sx
        } else {
            x
        };
        let err_x = if e2 >= dy {
            err + dy
        } else {
            err
        };
        let y2 = if e2 <= dx {
            y + sy
        } else {
            y
        };
        let err2 = if e2 <= dx {
            err_x + dx
        } else {
            err_x
        };
        if abs(bx - x2) + abs(by - y2) < abs(bx - x) + abs(by - y) {
            seq![(x, y)] + line_walk(x2, y2, bx, by, sx, sy, dx, dy, err2)
        } else {
            seq![(x, y)]
        }
    }
}

/// The points of the integer line from `(ax, ay)` to `(bx, by)`, in the
/// order the algorithm visits them, both endpoints included.
pub open spec fn line_points(ax: int, ay: int, bx: int, by: int) -> Seq<(int, int)> {
    let dx = abs(bx - ax) as int;
    let dy = -(abs(by - ay) as int);
    line_walk(ax, ay, bx, by, step_dir(ax, bx), step_dir(ay, by), dx, dy, dx + dy)
}

/// A degenerate line plots exactly its one point.
pub proof fn lemma_line_singleton(ax: int, ay: int)
    ensures
        line_points(ax, ay, ax, ay) =~= seq![(ax, ay)],
{
}

/// Relates a walk coordinate to its step count: with `x == a + s * k` and
/// `0 <= k <= d` where `d` is the line's span on this axis and `s` its
/// step direction, the coordinate reaches the target exactly at step `d`,
/// and the remaining distance is `d - k`.
proof fn lemma_axis_position(a: int, b: int, s: int, d: int, k: int, x: int)
    requires
        s == step_dir(a, b),
        d == abs(b - a),
        0 <= k <= d,
        x == a + s * k,
    ensures
        x == b <==> k == d,
        abs(b - x) == d - k,
{
    if a < b {
        assert(s == 1);
        assert(s * k == k) by (nonlinear_arith)
            requires
                s == 1,
        ;
    } else {
        assert(s == -1);
        assert(s * k == -k) by (nonlinear_arith)
            requires
                s == -1,
        ;
    }
}

/// When the walk has exhausted its x-span but not its y-span, the error
/// term forbids a further x-step: the walk never overshoots the target
/// column.
proof fn lemma_no_x_overshoot(dx: int, dyp: int, ky: int, err: int)
    requires
        dx >= 0,
        0 <= ky < dyp,
        err == dx - dyp + dx * (-dyp) + ky * dx,
    ensures
        2 * err < -dyp,
{
    assert(2 * err < -dyp) by (nonlinear_arith)
        requires
            dx >= 0,
            0 <= ky < dyp,
            err == dx - dyp + dx * (-dyp) + ky * dx,
    ;
}

/// When the walk has exhausted its y-span but not its x-span, the error
/// term forbids a further y-step: the walk never overshoots the target
/// row.
proof fn lemma_no_y_overshoot(dx: int, dyp: int, kx: int, err: int)
    requires
        dyp >= 0,
        0 <= kx < dx,
        err == dx - dyp + kx * (-dyp) + dyp * dx,
    ensures
        2 * err > dx,
{
    assert(2 * err > dx) by (nonlinear_arith)
        requires
            dyp >= 0,
            0 <= kx < dx,
            err == dx - dyp + kx * (-dyp) + dyp * dx,
    ;
}

/// The walk of a vertical line only ever steps on the y axis: the error
/// term starts at the negated span and never lets the x axis move.
proof fn lemma_vwalk(x: int, y: int, by: int, sx: int, sy: int, d: int)
    requires
        d > 0,
        (sy == 1 && y <= by) || (sy == -1 && y >= by),
    ensures
        line_walk(x, y, x, by, sx, sy, 0, -d, -d) =~= Seq::new(
            (abs(by - y) + 1) as nat,
            |k: int| (x, y + sy * k),
        ),
    decreases abs(by - y),
{
    let cf = Seq::new((abs(by - y) + 1) as nat, |k: int| (x, y + sy * k));
    if y == by {
        assert(cf[0] == (x, y + sy * 0));
        assert(sy * 0 == 0) by (nonlinear_arith);
    } else {
        let e2 = 2 * (-d);
        assert(!(e2 >= -d));
        assert(e2 <= 0);
        lemma_vwalk(x, y + sy, by, sx, sy, d);
        let cf2 = Seq::new((abs(by - (y + sy)) + 1) as nat, |k: int| (x, y + sy + sy * k));
        assert(line_walk(x, y, x, by, sx, sy, 0, -d, -d) == seq![(x, y)] + line_walk(
            x,
            y + sy,
            x,
            by,
            sx,
            sy,
            0,
            -d,
            -d,
        ));
        assert forall|k: int| 0 <= k < cf.len() implies cf[k] == (seq![(x, y)] + cf2)[k] by {
            if k > 0 {
                assert(sy * k == sy * (k - 1) + sy) by (nonlinear_arith);
            } else {
                assert(sy * 0 == 0) by (nonlinear_arith);
            }
        }
        assert(cf =~= seq![(x, y)] + cf2);
    }
}

/// Closed form of a vertical line: the points walk the y axis one cell at
/// a time from `ay` to `by`, holding the x coordinate fixed.
pub proof fn lemma_line_vertical(ax: int, ay: int, by: int)
    ensures
        line_points(ax, ay, ax, by) =~= Seq::new(
            (abs(by - ay) + 1) as nat,
            |k: int| (ax, ay + step_dir(ay, by) * k),
        ),
{
    let d = abs(by - ay) as int;
    if ay == by {
        assert(step_dir(ay, by) * 0 == 0) by (nonlinear_arith);
        assert(line_points(ax, ay, ax, by) =~= seq![(ax, ay)]);
    } else {
        lemma_vwalk(ax, ay, by, step_dir(ax, ax), step_dir(ay, by), d);
    }
}

/// The error term of the walk after `kx` steps on the x axis and `ky` on
/// the y axis, for a line of spans `dx` and `dyp`.
spec fn err_of(dx: int, dyp: int, kx: int, ky: int) -> int {
    dx - dyp + kx * (-dyp) + ky * dx
}

/// The walk of the line from `(ax, ay)` to `(bx, by)`, resumed at the
/// intermediate state `(x, y, err)`.
spec fn walk_from(ax: int, ay: int, bx: int, by: int, x: int, y: int, err: int) -> Seq<
    (int, int),
> {
    line_walk(
        x,
        y,
        bx,
        by,
        step_dir(ax, bx),
        step_dir(ay, by),
        abs(bx - ax) as int,
        -(abs(by - ay) as int),
        err,
    )
}

/// From any state the algorithm visits, the rest of the walk starts at
/// that state's point, ends at the target, stays inside the endpoints'
/// bounding box, and moves to an adjacent point at every step.
proof fn lemma_walk_complete(ax: int, ay: int, bx: int, by: int, kx: int, ky: int, x: int, y: int, err: int)
    requires
        x == ax + step_dir(ax, bx) * kx,
        y == ay + step_dir(ay, by) * ky,
        0 <= kx <= abs(bx - ax),
        0 <= ky <= abs(by - ay),
        err == abs(bx - ax) - abs(by - ay) + kx * (-(abs(by - ay) as int)) + ky * (abs(bx - ax)
            as int),
    ensures
        walk_from(ax, ay, bx, by, x, y, err).len() >= 1,
        walk_from(ax, ay, bx, by, x, y, err)[0] == (x, y),
        walk_from(ax, ay, bx, by, x, y, err).last() == (bx, by),
        forall|k: int|
            0 <= k < walk_from(ax, ay, bx, by, x, y, err).len() ==> {
                let p = #[trigger] walk_from(ax, ay, bx, by, x, y, err)[k];
                min(ax, bx) <= p.0 <= max(ax, bx) && min(ay, by) <= p.1 <= max(ay, by)
            },
        forall|k: int|
            0 <= k < walk_from(ax, ay, bx, by, x, y, err).len() - 1 ==> {
                let p = #[trigger] walk_from(ax, ay, bx, by, x, y, err)[k];
                let q = walk_from(ax, ay, bx, by, x, y, err)[k + 1];
                abs(q.0 - p.0) <= 1 && abs(q.1 - p.1) <= 1 && q != p
            },
    decreases abs(bx - ax) - kx + abs(by - ay) - ky,
{
    let dx = abs(bx - ax) as int;
    let dyp = abs(by - ay) as int;
    let dy = -dyp;
    let sx = step_dir(ax, bx);
    let sy = step_dir(ay, by);
    let w = walk_from(ax, ay, bx, by, x, y, err);
    lemma_axis_position(ax, bx, sx, dx, kx, x);
    lemma_axis_position(ay, by, sy, dyp, ky, y);
    if x == bx && y == by {
        assert(w =~= seq![(x, y)]);
    } else {
        assert(!(kx == dx && ky == dyp));
        let e2 = 2 * err;
        let kx2 = if e2 >= dy {
            kx + 1
        } else {
            kx
        };
        let ky2 = if e2 <= dx {
            ky + 1
        } else {
            ky
        };
        if e2 >= dy && kx == dx {
            lemma_no_x_overshoot(dx, dyp, ky, err);
        }
        if e2 <= dx && ky == dyp {
            lemma_no_y_overshoot(dx, dyp, kx, err);
        }
        assert(kx2 <= dx && ky2 <= dyp);
        assert(kx2 + ky2 > kx + ky);
        let x2 = if e2 >= dy {
            x + sx
        } else {
            x
        };
        let y2 = if e2 <= dx {
            y + sy
        } else {
            y
        };
        let err2 = (if e2 <= dx {
            (if e2 >= dy {
                err + dy
            } else {
                err
            }) + dx
        } else {
            (if e2 >= dy {
                err + dy
            } else {
                err
            })
        });
        assert(x2 == ax + sx * kx2 && y2 == ay + sy * ky2) by {
            if e2 >= dy {
                assert(sx * (kx + 1) == sx * kx + sx) by (nonlinear_arith);
            }
            if e2 <= dx {
                assert(sy * (ky + 1) == sy * ky + sy) by (nonlinear_arith);
            }
        }
        assert(err2 == dx - dyp + kx2 * (-dyp) + ky2 * dx) by {
            assert((kx + 1) * (-dyp) == kx * (-dyp) + (-dyp)) by (nonlinear_arith);
            assert((ky + 1) * dx == ky * dx + dx) by (nonlinear_arith);
        }
        lemma_axis_position(ax, bx, sx, dx, kx2, x2);
        lemma_axis_position(ay, by, sy, dyp, ky2, y2);
        assert(abs(bx - x2) + abs(by - y2) < abs(bx - x) + abs(by - y));
        lemma_walk_complete(ax, ay, bx, by, kx2, ky2, x2, y2, err2);
        let w2 = walk_from(ax, ay, bx, by, x2, y2, err2);
        assert(w == seq![(x, y)] + w2);
        assert(w.last() == w2.last());
        assert(min(ax, bx) <= x <= max(ax, bx) && min(ay, by) <= y <= max(ay, by));
        assert forall|k: int| 0 <= k < w.len() - 1 implies {
            let p = #[trigger] w[k];
            let q = w[k + 1];
            abs(q.0 - p.0) <= 1 && abs(q.1 - p.1) <= 1 && q != p
        } by {
            if k == 0 {
                assert(w[0] == (x, y) && w[1] == w2[0]);
            } else {
                assert(w[k] == w2[k - 1] && w[k + 1] == w2[k]);
            }
        }
    }
}

/// The points of a line begin at its first endpoint, end at its second,
/// never leave the endpoints' bounding box, and step to an adjacent point
/// each time: the drawn line is gap-free and clipping it can only omit
/// points outside the box.
pub proof fn lemma_line_points_shape(ax: int, ay: int, bx: int, by: int)
    ensures
        line_points(ax, ay, bx, by).len() >= 1,
        line_points(ax, ay, bx, by)[0] == (ax, ay),
        line_points(ax, ay, bx, by).last() == (bx, by),
        forall|k: int|
            0 <= k < line_points(ax, ay, bx, by).len() ==> {
                let p = #[trigger] line_points(ax, ay, bx, by)[k];
                min(ax, bx) <= p.0 <= max(ax, bx) && min(ay, by) <= p.1 <= max(ay, by)
            },
        forall|k: int|
            0 <= k < line_points(ax, ay, bx, by).len() - 1 ==> {
                let p = #[trigger] line_points(ax, ay, bx, by)[k];
                let q = line_points(ax, ay, bx, by)[k + 1];
                abs(q.0 - p.0) <= 1 && abs(q.1 - p.1) <= 1 && q != p
            },
{
    assert(step_dir(ax, bx) * 0 == 0 && step_dir(ay, by) * 0 == 0) by (nonlinear_arith);
    lemma_walk_complete(ax, ay, bx, by, 0, 0, ax, ay, abs(bx - ax) - abs(by - ay));
}

/// Reversing a sequence with its head removed: the head moves to the end.
proof fn lemma_reverse_cons<T>(p: T, s: Seq<T>)
    ensures
        (seq![p] + s).reverse() =~= s.reverse().push(p),
{
    let w = seq![p] + s;
    assert forall|i: int| 0 <= i < w.len() implies w.reverse()[i] == s.reverse().push(p)[i] by {
        if i < s.len() {
            assert(w.reverse()[i] == w[w.len() - 1 - i]);
            assert(w[s.len() - i] == s[s.len() - 1 - i]);
        } else {
            assert(w.reverse()[i] == w[0]);
        }
    }
}

/// The mirrored step: with both spans odd, the doubled error term never
/// ties with either threshold, and inside the tie free band the backward
/// walk at the stepped-to state fires exactly the axes the forward walk
/// fired, while the stepped-to offset stays inside the band.
#[verifier::rlimit(30)]
proof fn lemma_step_mirror(
    dx: int,
    dyp: int,
    hx: int,
    hy: int,
    u: int,
    u2: int,
    stepx: bool,
    stepy: bool,
)
    requires
        dx >= 0,
        dyp >= 0,
        dx == 2 * hx + 1,
        dyp == 2 * hy + 1,
        1 - max(dx, dyp) <= 2 * u <= max(dx, dyp) - 1,
        stepx == (2 * ((dx - dyp) + u) >= -dyp),
        stepy == (2 * ((dx - dyp) + u) <= dx),
        u2 == u + (if stepy {
            dx
        } else {
            0int
        }) - (if stepx {
            dyp
        } else {
            0int
        }),
    ensures
        (2 * ((dx - dyp) - u2) >= -dyp) == stepx,
        (2 * ((dx - dyp) - u2) <= dx) == stepy,
        1 - max(dx, dyp) <= 2 * u2 <= max(dx, dyp) - 1,
{
    let m = max(dx, dyp);
    assert(dx >= 1 && dyp >= 1);
    assert(stepx || stepy);
    if stepx && stepy {
        assert(u2 == u + dx - dyp);
        // strict forms of both step conditions: the middle term is odd
        assert(2 * u >= dyp - 2 * dx + 1);
        assert(2 * u <= 2 * dyp - dx - 1);
        if dx >= dyp {
            assert(2 * u <= dyp - 1);
            assert(2 * u >= 1 - dx);
        } else {
            assert(2 * u <= dyp - 1);
            assert(2 * u >= 1 - dyp);
        }
        assert(2 * ((dx - dyp) - u2) == -2 * u);
        assert(-2 * u >= -dyp);
        assert(-2 * u <= dx);
        assert(2 * u2 == 2 * u + 2 * dx - 2 * dyp);
        if dx >= dyp {
            assert(2 * u2 <= dx - 1 && 2 * u2 >= 1 - dx);
        } else {
            assert(2 * u2 <= dyp - 1 && 2 * u2 >= 1 - dyp);
        }
    } else if stepx {
        assert(u2 == u - dyp);
        assert(2 * u >= 2 * dyp - dx + 1);
        assert(dx > dyp) by {
            if dyp >= dx {
                assert(2 * u <= dyp - 1);
                assert(false);
            }
        }
        assert(2 * u <= dx - 1);
        assert(2 * ((dx - dyp) - u2) == 2 * dx - 2 * u);
        assert(2 * dx - 2 * u >= -dyp);
        assert(2 * dx - 2 * u > dx);
        assert(2 * u2 == 2 * u - 2 * dyp);
        assert(2 * u2 <= dx - 1 && 2 * u2 >= 1 - dx);
    } else {
        assert(stepy);
        assert(u2 == u + dx);
        assert(2 * u <= dyp - 2 * dx - 1);
        assert(dyp > dx) by {
            if dx >= dyp {
                assert(2 * u >= 1 - dx);
                assert(false);
            }
        }
        assert(2 * u >= 1 - dyp);
        assert(2 * ((dx - dyp) - u2) == -2 * dyp - 2 * u);
        assert(-2 * dyp - 2 * u <= dx);
        assert(-2 * dyp - 2 * u < -dyp);
        assert(2 * u2 == 2 * u + 2 * dx);
        assert(2 * u2 >= 1 - dyp && 2 * u2 <= dyp - 1);
    }
}

/// From a state of the forward walk whose error offset lies in the tie
/// free band, the whole backward line equals the reversed part of the
/// forward walk already behind, followed by the backward walk resumed at
/// this state's point. Both spans are odd (`dx == 2 * hx + 1` and
/// `dyp == 2 * hy + 1`), so no comparison of the error term ever lands on
/// a tie, and each forward step mirrors one backward step exactly.
#[verifier::rlimit(100)]
proof fn lemma_walk_reverse_odd(
    ax: int,
    ay: int,
    bx: int,
    by: int,
    hx: int,
    hy: int,
    kx: int,
    ky: int,
)
    requires
        abs(bx - ax) == 2 * hx + 1,
        abs(by - ay) == 2 * hy + 1,
        0 <= kx <= abs(bx - ax),
        0 <= ky <= abs(by - ay),
        1 - max(abs(bx - ax) as int, abs(by - ay) as int) <= 2 * (ky * (abs(bx - ax) as int) - kx
            * (abs(by - ay) as int)) <= max(abs(bx - ax) as int, abs(by - ay) as int) - 1,
    ensures
        line_points(bx, by, ax, ay) == walk_from(
            ax,
            ay,
            bx,
            by,
            ax + step_dir(ax, bx) * kx,
            ay + step_dir(ay, by) * ky,
            err_of(abs(bx - ax) as int, abs(by - ay) as int, kx, ky),
        ).reverse().drop_last() + walk_from(
            bx,
            by,
            ax,
            ay,
            ax + step_dir(ax, bx) * kx,
            ay + step_dir(ay, by) * ky,
            err_of(
                abs(bx - ax) as int,
                abs(by - ay) as int,
                abs(bx - ax) - kx,
                abs(by - ay) - ky,
            ),
        ),
    decreases abs(bx - ax) - kx + abs(by - ay) - ky,
{
    let dx = abs(bx - ax) as int;
    let dyp = abs(by - ay) as int;
    let dy = -dyp;
    let sx = step_dir(ax, bx);
    let sy = step_dir(ay, by);
    let sxb = step_dir(bx, ax);
    let syb = step_dir(by, ay);
    let px = ax + sx * kx;
    let py = ay + sy * ky;
    let errf = err_of(dx, dyp, kx, ky);
    let errb = err_of(dx, dyp, dx - kx, dyp - ky);
    let fsuf = walk_from(ax, ay, bx, by, px, py, errf);
    let bsuf = walk_from(bx, by, ax, ay, px, py, errb);
    let u = ky * dx - kx * dyp;
    assert(dx >= 1 && dyp >= 1);
    assert(ax != bx && ay != by);
    assert(sxb == -sx && syb == -sy);
    assert(abs(ax - bx) == dx && abs(ay - by) == dyp);
    assert(errf == (dx - dyp) + u && errb == (dx - dyp) - u) by (nonlinear_arith)
        requires
            errf == dx - dyp + kx * (-dyp) + ky * dx,
            errb == dx - dyp + (dx - kx) * (-dyp) + (dyp - ky) * dx,
            u == ky * dx - kx * dyp,
    ;
    // positions measured from either endpoint
    assert(bx == ax + sx * dx && by == ay + sy * dyp) by {
        lemma_unit_mul(sx, dx);
        lemma_unit_mul(sy, dyp);
    }
    assert(px == bx + sxb * (dx - kx) && py == by + syb * (dyp - ky)) by {
        lemma_unit_mul(sx, kx);
        lemma_unit_mul(sx, dx);
        lemma_unit_mul(sxb, dx - kx);
        lemma_unit_mul(sy, ky);
        lemma_unit_mul(sy, dyp);
        lemma_unit_mul(syb, dyp - ky);
    }
    lemma_axis_position(ax, bx, sx, dx, kx, px);
    lemma_axis_position(ay, by, sy, dyp, ky, py);
    lemma_axis_position(bx, ax, sxb, dx, dx - kx, px);
    lemma_axis_position(by, ay, syb, dyp, dyp - ky, py);
    if kx == dx && ky == dyp {
        // at the target: the forward walk is spent, and the backward walk
        // from here is the whole backward line
        assert(px == bx && py == by);
        assert(fsuf =~= seq![(bx, by)]);
        assert(errb == dx - dyp) by (nonlinear_arith)
            requires
                errb == dx - dyp + 0 * (-dyp) + 0 * dx,
        ;
        assert(line_points(bx, by, ax, ay) == bsuf);
        assert(fsuf.reverse() =~= seq![(bx, by)]);
        assert(fsuf.reverse().drop_last() =~= Seq::<(int, int)>::empty());
        assert(Seq::<(int, int)>::empty() + bsuf =~= bsuf);
    } else {
        assert(!(px == bx && py == by));
        let e2 = 2 * errf;
        let stepx = e2 >= dy;
        let stepy = e2 <= dx;
        assert(stepx || stepy);
        if stepx && kx == dx {
            lemma_no_x_overshoot(dx, dyp, ky, errf);
        }
        if stepy && ky == dyp {
            lemma_no_y_overshoot(dx, dyp, kx, errf);
        }
        let kx2 = if stepx {
            kx + 1
        } else {
            kx
        };
        let ky2 = if stepy {
            ky + 1
        } else {
            ky
        };
        assert(kx2 <= dx && ky2 <= dyp && kx + ky < kx2 + ky2);
        let u2 = ky2 * dx - kx2 * dyp;
        assert(u2 == u + (if stepy {
            dx
        } else {
            0int
        }) - (if stepx {
            dyp
        } else {
            0int
        })) by (nonlinear_arith)
            requires
                u == ky * dx - kx * dyp,
                u2 == ky2 * dx - kx2 * dyp,
                kx2 == (if stepx {
                    kx + 1int
                } else {
                    kx
                }),
                ky2 == (if stepy {
                    ky + 1int
                } else {
                    ky
                }),
    ;
        let px2 = if stepx {
            px + sx
        } else {
            px
        };
        let py2 = if stepy {
            py + sy
        } else {
            py
        };
        let errf2 = err_of(dx, dyp, kx2, ky2);
        let errb2 = err_of(dx, dyp, dx - kx2, dyp - ky2);
        assert(errf2 == (dx - dyp) + u2 && errb2 == (dx - dyp) - u2) by (nonlinear_arith)
            requires
                errf2 == dx - dyp + kx2 * (-dyp) + ky2 * dx,
                errb2 == dx - dyp + (dx - kx2) * (-dyp) + (dyp - ky2) * dx,
                u2 == ky2 * dx - kx2 * dyp,
        ;
        assert(errf2 == (if stepy {
            (if stepx {
                errf + dy
            } else {
                errf
            }) + dx
        } else {
            (if stepx {
                errf + dy
            } else {
                errf
            })
        }));
        assert(px2 == ax + sx * kx2 && py2 == ay + sy * ky2) by {
            lemma_unit_mul(sx, kx);
            lemma_unit_mul(sx, kx2);
            lemma_unit_mul(sy, ky);
            lemma_unit_mul(sy, ky2);
        }
        lemma_axis_position(ax, bx, sx, dx, kx2, px2);
        lemma_axis_position(ay, by, sy, dyp, ky2, py2);
        // the forward walk takes this step
        assert(fsuf == seq![(px, py)] + walk_from(ax, ay, bx, by, px2, py2, errf2));
        let fsuf2 = walk_from(ax, ay, bx, by, px2, py2, errf2);
        // the step mirrors, and the tie free band carries to the new state
        lemma_step_mirror(dx, dyp, hx, hy, u, u2, stepx, stepy);
        assert(1 - max(dx, dyp) <= 2 * u2 <= max(dx, dyp) - 1);
        lemma_walk_reverse_odd(ax, ay, bx, by, hx, hy, kx2, ky2);
        let bsuf2 = walk_from(bx, by, ax, ay, px2, py2, errb2);
        // the backward walk leaves the new state by the mirrored step,
        // landing back on this state's point with this state's error
        assert(px2 == bx + sxb * (dx - kx2) && py2 == by + syb * (dyp - ky2)) by {
            lemma_unit_mul(sx, kx2);
            lemma_unit_mul(sx, dx);
            lemma_unit_mul(sxb, dx - kx2);
            lemma_unit_mul(sy, ky2);
            lemma_unit_mul(sy, dyp);
            lemma_unit_mul(syb, dyp - ky2);
        }
        lemma_axis_position(bx, ax, sxb, dx, dx - kx2, px2);
        lemma_axis_position(by, ay, syb, dyp, dyp - ky2, py2);
        assert(!(px2 == ax && py2 == ay));
        let e2b = 2 * errb2;
        assert((e2b >= dy) == stepx && (e2b <= dx) == stepy);
        assert(stepx ==> px2 + sxb == px) by {
            lemma_unit_mul(sx, kx);
            lemma_unit_mul(sx, kx2);
        }
        assert(!stepx ==> px2 == px);
        assert(stepy ==> py2 + syb == py) by {
            lemma_unit_mul(sy, ky);
            lemma_unit_mul(sy, ky2);
        }
        assert(!stepy ==> py2 == py);
        assert(errb == (if stepy {
            (if stepx {
                errb2 + dy
            } else {
                errb2
            }) + dx
        } else {
            (if stepx {
                errb2 + dy
            } else {
                errb2
            })
        }));
        assert(bsuf2 == seq![(px2, py2)] + bsuf);
        // stitch the three walks together
        lemma_walk_complete(ax, ay, bx, by, kx2, ky2, px2, py2, errf2);
        assert(fsuf2.len() >= 1 && fsuf2[0] == (px2, py2));
        lemma_reverse_cons((px, py), fsuf2);
        assert(fsuf.reverse() =~= fsuf2.reverse().push((px, py)));
        assert(fsuf.reverse().drop_last() =~= fsuf2.reverse());
        assert(fsuf2.reverse().last() == (px2, py2));
        assert(fsuf2.reverse() =~= fsuf2.reverse().drop_last().push((px2, py2)));
        assert(fsuf2.reverse().drop_last() + (seq![(px2, py2)] + bsuf) =~= (
        fsuf2.reverse().drop_last().push((px2, py2))) + bsuf);
        assert(line_points(bx, by, ax, ay) == fsuf.reverse().drop_last() + bsuf);
    }
}

/// Swapping the endpoints of a line whose horizontal and vertical spans
/// are both odd draws the identical points in reverse order: with odd
/// spans the doubled error term never ties with either threshold, and
/// every step of the walk mirrors exactly.
pub proof fn lemma_line_symmetric_odd(ax: int, ay: int, bx: int, by: int)
    requires
        abs(bx - ax) % 2 == 1,
        abs(by - ay) % 2 == 1,
    ensures
        line_points(bx, by, ax, ay) =~= line_points(ax, ay, bx, by).reverse(),
{
    let dx = abs(bx - ax) as int;
    let dyp = abs(by - ay) as int;
    let hx = (dx - 1) / 2;
    let hy = (dyp - 1) / 2;
    assert(dx == 2 * hx + 1 && dyp == 2 * hy + 1) by (nonlinear_arith)
        requires
            dx % 2 == 1,
            dyp % 2 == 1,
            hx == (dx - 1) / 2,
            hy == (dyp - 1) / 2,
            dx >= 0,
            dyp >= 0,
    ;
    assert(0 * dx - 0 * dyp == 0) by (nonlinear_arith);
    lemma_walk_reverse_odd(ax, ay, bx, by, hx, hy, 0, 0);
    let sx = step_dir(ax, bx);
    let sy = step_dir(ay, by);
    assert(ax + sx * 0 == ax && ay + sy * 0 == ay) by {
        lemma_unit_mul(sx, 0);
        lemma_unit_mul(sy, 0);
    }
    assert(err_of(dx, dyp, 0, 0) == dx - dyp) by (nonlinear_arith)
        requires
            err_of(dx, dyp, 0, 0) == dx - dyp + 0 * (-dyp) + 0 * dx,
    ;
    let fwd = line_points(ax, ay, bx, by);
    assert(fwd == walk_from(ax, ay, bx, by, ax, ay, dx - dyp));
    let bend = walk_from(bx, by, ax, ay, ax, ay, err_of(dx, dyp, dx, dyp));
    // the backward walk is already at its target here
    assert(bend =~= seq![(ax, ay)]);
    lemma_walk_complete(ax, ay, bx, by, 0, 0, ax, ay, dx - dyp);
    assert(fwd.len() >= 1 && fwd[0] == (ax, ay));
    assert(fwd.reverse().last() == (ax, ay));
    assert(fwd.reverse() =~= fwd.reverse().drop_last().push((ax, ay)));
    assert(fwd.reverse().drop_last() + bend =~= fwd.reverse().drop_last().push((ax, ay)));
    assert(line_points(bx, by, ax, ay) =~= fwd.reverse());
}

/// Multiplying by a unit factor keeps or flips the sign.
proof fn lemma_unit_mul(s: int, k: int)
    requires
        s == 1 || s == -1,
    ensures
        s == 1 ==> s * k == k,
        s == -1 ==> s * k == -k,
{
    assert(s == 1 ==> s * k == k) by (nonlinear_arith);
    assert(s == -1 ==> s * k == -k) by (nonlinear_arith);
}

/// The walk of a horizontal line only ever steps on the x axis: the error
/// term stays at the span and never lets the y axis move.
proof fn lemma_hwalk(x: int, y: int, bx: int, sx: int, sy: int, d: int)
    requires
        d > 0,
        (sx == 1 && x <= bx) || (sx == -1 && x >= bx),
    ensures
        line_walk(x, y, bx, y, sx, sy, d, 0, d) =~= Seq::new(
            (abs(bx - x) + 1) as nat,
            |k: int| (x + sx * k, y),
        ),
    decreases abs(bx - x),
{
    let cf = Seq::new((abs(bx - x) + 1) as nat, |k: int| (x + sx * k, y));
    if x == bx {
        assert(cf[0] == (x + sx * 0, y));
        assert(sx * 0 == 0) by (nonlinear_arith);
    } else {
        let e2 = 2 * d;
        assert(e2 >= 0);
        assert(!(e2 <= d));
        lemma_hwalk(x + sx, y, bx, sx, sy, d);
        let cf2 = Seq::new((abs(bx - (x + sx)) + 1) as nat, |k: int| (x + sx + sx * k, y));
        assert(line_walk(x, y, bx, y, sx, sy, d, 0, d) == seq![(x, y)] + line_walk(
            x + sx,
            y,
            bx,
            y,
            sx,
            sy,
            d,
            0,
            d,
        ));
        assert forall|k: int| 0 <= k < cf.len() implies cf[k] == (seq![(x, y)] + cf2)[k] by {
            if k > 0 {
                assert(sx * k == sx * (k - 1) + sx) by (nonlinear_arith);
            } else {
                assert(sx * 0 == 0) by (nonlinear_arith);
            }
        }
        assert(cf =~= seq![(x, y)] + cf2);
    }
}

/// Closed form of a horizontal line: the points walk the x axis one cell
/// at a time from `ax` to `bx`, holding the y coordinate fixed.
pub proof fn lemma_line_horizontal(ax: int, ay: int, bx: int)
    ensures
        line_points(ax, ay, bx, ay) =~= Seq::new(
            (abs(bx - ax) + 1) as nat,
            |k: int| (ax + step_dir(ax, bx) * k, ay),
        ),
{
    if ax == bx {
        assert(step_dir(ax, bx) * 0 == 0) by (nonlinear_arith);
        assert(line_points(ax, ay, ax, ay) =~= seq![(ax, ay)]);
    } else {
        lemma_hwalk(ax, ay, bx, step_dir(ax, bx), step_dir(ay, ay), abs(bx - ax) as int);
    }
}

/// The walk of an exact diagonal steps both axes every iteration: the
/// error term returns to zero after each pair of steps.
proof fn lemma_dwalk(x: int, y: int, bx: int, by: int, sx: int, sy: int, d: int)
    requires
        d > 0,
        (sx == 1 && x <= bx) || (sx == -1 && x >= bx),
        (sy == 1 && y <= by) || (sy == -1 && y >= by),
        abs(bx - x) == abs(by - y),
    ensures
        line_walk(x, y, bx, by, sx, sy, d, -d, 0) =~= Seq::new(
            (abs(bx - x) + 1) as nat,
            |k: int| (x + sx * k, y + sy * k),
        ),
    decreases abs(bx - x),
{
    let cf = Seq::new((abs(bx - x) + 1) as nat, |k: int| (x + sx * k, y + sy * k));
    if x == bx {
        assert(y == by);
        assert(cf[0] == (x + sx * 0, y + sy * 0));
        assert(sx * 0 == 0 && sy * 0 == 0) by (nonlinear_arith);
    } else {
        assert(y != by);
        let e2 = 2 * 0int;
        assert(e2 >= -d);
        assert(e2 <= d);
        lemma_dwalk(x + sx, y + sy, bx, by, sx, sy, d);
        let cf2 = Seq::new(
            (abs(bx - (x + sx)) + 1) as nat,
            |k: int| (x + sx + sx * k, y + sy + sy * k),
        );
        assert(line_walk(x, y, bx, by, sx, sy, d, -d, 0) == seq![(x, y)] + line_walk(
            x + sx,
            y + sy,
            bx,
            by,
            sx,
            sy,
            d,
            -d,
            0,
        ));
        assert forall|k: int| 0 <= k < cf.len() implies cf[k] == (seq![(x, y)] + cf2)[k] by {
            if k > 0 {
                assert(sx * k == sx * (k - 1) + sx) by (nonlinear_arith);
                assert(sy * k == sy * (k - 1) + sy) by (nonlinear_arith);
            } else {
                assert(sx * 0 == 0 && sy * 0 == 0) by (nonlinear_arith);
            }
        }
        assert(cf =~= seq![(x, y)] + cf2);
    }
}

/// Closed form of an exact diagonal: the points step both axes together,
/// one cell at a time from `(ax, ay)` to `(bx, by)`.
pub proof fn lemma_line_diagonal(ax: int, ay: int, bx: int, by: int)
    requires
        abs(bx - ax) == abs(by - ay),
    ensures
        line_points(ax, ay, bx, by) =~= Seq::new(
            (abs(bx - ax) + 1) as nat,
            |k: int| (ax + step_dir(ax, bx) * k, ay + step_dir(ay, by) * k),
        ),
{
    if ax == bx {
        assert(ay == by);
        assert(step_dir(ax, bx) * 0 == 0 && step_dir(ay, by) * 0 == 0) by (nonlinear_arith);
        assert(line_points(ax, ay, ax, ay) =~= seq![(ax, ay)]);
    } else {
        lemma_dwalk(
            ax,
            ay,
            bx,
            by,
            step_dir(ax, bx),
            step_dir(ay, by),
            abs(bx - ax) as int,
        );
    }
}

/// Reversing a sequence keeps exactly the same elements.
proof fn lemma_reverse_same_elems<T>(s: Seq<T>)
    ensures
        s.reverse().to_set() == s.to_set(),
{
    let n = s.len();
    assert forall|a: T| s.reverse().to_set().contains(a) <==> s.to_set().contains(a) by {
        if s.contains(a) {
            let k = choose|k: int| 0 <= k < n && s[k] == a;
            assert(s.reverse()[n - 1 - k] == a);
            assert(s.reverse().contains(a));
        }
        if s.reverse().contains(a) {
            let k = choose|k: int| 0 <= k < s.reverse().len() && s.reverse()[k] == a;
            assert(s[n - 1 - k] == a);
            assert(s.contains(a));
        }
    }
    assert(s.reverse().to_set() =~= s.to_set());
}

/// Swapping the endpoints of a line that is axis-aligned, exactly
/// diagonal, or has both spans odd draws the identical points in reverse
/// order, and so covers the same point set.
pub proof fn lemma_line_symmetric(ax: int, ay: int, bx: int, by: int)
    requires
        ax == bx || ay == by || abs(bx - ax) == abs(by - ay) || (abs(bx - ax) % 2 == 1 && abs(
            by - ay,
        ) % 2 == 1),
    ensures
        line_points(bx, by, ax, ay) =~= line_points(ax, ay, bx, by).reverse(),
        line_points(bx, by, ax, ay).to_set() == line_points(ax, ay, bx, by).to_set(),
{
    let fwd = line_points(ax, ay, bx, by);
    let bwd = line_points(bx, by, ax, ay);
    let n = (abs(bx - ax) + abs(by - ay)) as int;
    if ax == bx && ay == by {
        lemma_line_singleton(ax, ay);
    } else if ax == bx {
        lemma_line_vertical(ax, ay, by);
        lemma_line_vertical(bx, by, ay);
        let s = step_dir(ay, by);
        let t = step_dir(by, ay);
        assert(s == -t && (s == 1 || s == -1));
        assert(fwd.len() == n + 1 && bwd.len() == n + 1);
        assert forall|k: int| 0 <= k <= n implies bwd[k] == fwd.reverse()[k] by {
            lemma_unit_mul(s, k);
            lemma_unit_mul(s, n - k);
            lemma_unit_mul(t, k);
            assert(fwd.reverse()[k] == fwd[n - k]);
        }
        assert(bwd =~= fwd.reverse());
    } else if ay == by {
        lemma_line_horizontal(ax, ay, bx);
        lemma_line_horizontal(bx, by, ax);
        let s = step_dir(ax, bx);
        let t = step_dir(bx, ax);
        assert(s == -t && (s == 1 || s == -1));
        assert(fwd.len() == abs(bx - ax) + 1 && bwd.len() == abs(bx - ax) + 1);
        let m = abs(bx - ax) as int;
        assert forall|k: int| 0 <= k <= m implies bwd[k] == fwd.reverse()[k] by {
            lemma_unit_mul(s, k);
            lemma_unit_mul(s, m - k);
            lemma_unit_mul(t, k);
            assert(fwd.reverse()[k] == fwd[m - k]);
        }
        assert(bwd =~= fwd.reverse());
    } else if abs(bx - ax) == abs(by - ay) {
        lemma_line_diagonal(ax, ay, bx, by);
        lemma_line_diagonal(bx, by, ax, ay);
        let s = step_dir(ax, bx);
        let t = step_dir(bx, ax);
        let u = step_dir(ay, by);
        let v = step_dir(by, ay);
        assert(s == -t && u == -v && (s == 1 || s == -1) && (u == 1 || u == -1));
        let m = abs(bx - ax) as int;
        assert(fwd.len() == m + 1 && bwd.len() == m + 1);
        assert forall|k: int| 0 <= k <= m implies bwd[k] == fwd.reverse()[k] by {
            lemma_unit_mul(s, k);
            lemma_unit_mul(s, m - k);
            lemma_unit_mul(t, k);
            lemma_unit_mul(u, k);
            lemma_unit_mul(u, m - k);
            lemma_unit_mul(v, k);
            assert(fwd.reverse()[k] == fwd[m - k]);
        }
        assert(bwd =~= fwd.reverse());
    } else {
        lemma_line_symmetric_odd(ax, ay, bx, by);
    }
    lemma_reverse_same_elems(fwd);
}

/// Drawing a line that is axis-aligned, exactly diagonal, or has both
/// spans odd with swapped endpoints leaves any well-formed grid in the
/// identical state, because the two calls visit the same point set.
pub proof fn lemma_draw_symmetric(g: Grid, ax: int, ay: int, bx: int, by: int, c: Cell)
    requires
        g.wf(),
        ax == bx || ay == by || abs(bx - ax) == abs(by - ay) || (abs(bx - ax) % 2 == 1 && abs(
            by - ay,
        ) % 2 == 1),
    ensures
        g.plot_all(line_points(ax, ay, bx, by), c) == g.plot_all(line_points(bx, by, ax, ay), c),
{
    lemma_line_symmetric(ax, ay, bx, by);
    lemma_plot_all_same_points(
        g,
        line_points(ax, ay, bx, by),
        line_points(bx, by, ax, ay),
        c,
    );
}

/// Draws the vertical span from `(x, y1)` to `(x, y2)` exactly as the line
/// algorithm would, one clipped write per cell of the span.
pub(crate) fn draw_vline(buf: &mut FrameBuffer, x: i64, y1: i64, y2: i64, cell: Cell)
    requires
        old(buf).wf(),
        -1000000 <= x <= 1000000,
        -1000000 <= y1 <= 1000000,
        -1000000 <= y2 <= 1000000,
    ensures
        final(buf).wf(),
        final(buf)@ == old(buf)@.plot_all(
            line_points(x as int, y1 as int, x as int, y2 as int),
            cell,
        ),
        final(buf)@.width == old(buf)@.width,
        final(buf)@.height == old(buf)@.height,
{
    let s: i64 = if y1 < y2 {
        1
    } else {
        -1
    };
    let n: i64 = if y2 >= y1 {
        y2 - y1
    } else {
        y1 - y2
    };
    let ghost g0 = buf@;
    let ghost cf = Seq::new((n + 1) as nat, |k: int| (x as int, y1 + s * k));
    proof {
        lemma_line_vertical(x as int, y1 as int, y2 as int);
        assert(cf =~= line_points(x as int, y1 as int, x as int, y2 as int));
    }
    let mut k: i64 = 0;
    while k <= n
        invariant
            g0.wf(),
            0 <= k <= n + 1,
            0 <= n <= 2000000,
            -1000000 <= x <= 1000000,
            -1000000 <= y1 <= 1000000,
            s == 1 || s == -1,
            cf == Seq::new((n + 1) as nat, |j: int| (x as int, y1 + s * j)),
            buf.wf(),
            buf@.width == g0.width,
            buf@.height == g0.height,
            buf@ == g0.plot_all(cf.take(k as int), cell),
        decreases n + 1 - k,
    {
        proof {
            assert(-2000000 <= s * k <= 2000000) by (nonlinear_arith)
                requires
                    s == 1 || s == -1,
                    0 <= k <= 2000000,
            ;
        }
        buf.set_wide(x, y1 + s * k, cell);
        proof {
            assert(cf[k as int] == (x as int, y1 + s * k));
            assert(cf.take(k as int + 1) =~= cf.take(k as int).push(cf[k as int]));
            lemma_plot_all_push(g0, cf.take(k as int), cf[k as int], cell);
        }
        k = k + 1;
    }
    proof {
        assert(cf.take(n as int + 1) =~= cf);
    }
}

/// Draws the integer line from `point_a` to `point_b`, both endpoints
/// included, writing the cell `{glyph, attr}` at every visited point;
/// points outside the grid are clipped. A degenerate line plots exactly
/// its one point.
pub fn draw_line(
    buf: &mut FrameBuffer,
    point_a: (i16, i16),
    point_b: (i16, i16),
    glyph: char,
    attr: u16,
)
    requires
        old(buf).wf(),
    ensures
        final(buf).wf(),
        final(buf)@ == old(buf)@.plot_all(
            line_points(point_a.0 as int, point_a.1 as int, point_b.0 as int, point_b.1 as int),
            Cell { glyph, attr },
        ),
        final(buf)@.width == old(buf)@.width,
        final(buf)@.height == old(buf)@.height,
        point_a == point_b ==> final(buf)@ == old(buf)@.plot(
            point_a.0 as int,
            point_a.1 as int,
            Cell { glyph, attr },
        ),
{
    let cell = Cell::new(glyph, attr);
    let ax: i64 = point_a.0 as i64;
    let ay: i64 = point_a.1 as i64;
    let bx: i64 = point_b.0 as i64;
    let by: i64 = point_b.1 as i64;
    let dx: i64 = if bx >= ax {
        bx - ax
    } else {
        ax - bx
    };
    let sx: i64 = if ax < bx {
        1
    } else {
        -1
    };
    let dyp: i64 = if by >= ay {
        by - ay
    } else {
        ay - by
    };
    let dy: i64 = -dyp;
    let sy: i64 = if ay < by {
        1
    } else {
        -1
    };
    let mut err: i64 = dx + dy;
    let mut x: i64 = ax;
    let mut y: i64 = ay;
    let ghost total = line_points(ax as int, ay as int, bx as int, by as int);
    let ghost g0 = buf@;
    let ghost mut done = Seq::<(int, int)>::empty();
    let ghost mut kx: int = 0;
    let ghost mut ky: int = 0;
    proof {
        assert(done + line_walk(
            x as int,
            y as int,
            bx as int,
            by as int,
            sx as int,
            sy as int,
            dx as int,
            dy as int,
            err as int,
        ) =~= total);
    }
    loop
        invariant_except_break
            g0.wf(),
            -0x8000 <= ax <= 0x7fff,
            -0x8000 <= ay <= 0x7fff,
            -0x8000 <= bx <= 0x7fff,
            -0x8000 <= by <= 0x7fff,
            dx == abs(bx as int - ax as int),
            dyp == abs(by as int - ay as int),
            dy == -dyp,
            sx == step_dir(ax as int, bx as int),
            sy == step_dir(ay as int, by as int),
            total == line_points(ax as int, ay as int, bx as int, by as int),
            buf.wf(),
            buf@ == g0.plot_all(done, cell),
            x == ax + sx * kx,
            y == ay + sy * ky,
            0 <= kx <= dx,
            0 <= ky <= dyp,
            err == dx + dy + kx * dy + ky * dx,
            done + line_walk(
                x as int,
                y as int,
                bx as int,
                by as int,
                sx as int,
                sy as int,
                dx as int,
                dy as int,
                err as int,
            ) == total,
        ensures
            buf.wf(),
            buf@ == g0.plot_all(total, cell),
        decreases abs(bx as int - x as int) + abs(by as int - y as int),
    {
        proof {
            lemma_axis_position(ax as int, bx as int, sx as int, dx as int, kx, x as int);
            lemma_axis_position(ay as int, by as int, sy as int, dyp as int, ky, y as int);
        }
        buf.set_wide(x, y, cell);
        proof {
            lemma_plot_all_push(g0, done, (x as int, y as int), cell);
            assert(done.push((x as int, y as int)) =~= done + seq![(x as int, y as int)]);
            done = done.push((x as int, y as int));
        }
        if x == bx && y == by {
            proof {
                assert(done + Seq::<(int, int)>::empty() =~= done);
                assert(done =~= total);
                lemma_plot_all_preserves(g0, total, cell);
            }
            break;
        }
        proof {
            // the walk has not reached the target, so it has span left
            // on at least one axis, and the error term never lets an
            // exhausted axis step again
            assert(!(kx == dx && ky == dyp));
            assert(-30000000000 < err < 30000000000) by (nonlinear_arith)
                requires
                    err == dx + dy + kx * dy + ky * dx,
                    dy == -dyp,
                    0 <= kx <= dx < 66000,
                    0 <= ky <= dyp < 66000,
            ;
        }
        let e2: i64 = 2 * err;
        let ghost pre_x = x as int;
        let ghost pre_y = y as int;
        let ghost pre_err = err as int;
        let ghost pre_kx = kx;
        let ghost pre_ky = ky;
        if e2 >= dy {
            proof {
                if kx == dx {
                    lemma_no_x_overshoot(dx as int, dyp as int, ky, err as int);
                }
                assert(kx < dx);
                assert((kx + 1) * dy == kx * dy + dy) by (nonlinear_arith);
                assert(sx * (kx + 1) == sx * kx + sx) by (nonlinear_arith);
                kx = kx + 1;
            }
            err = err + dy;
            x = x + sx;
        }
        if e2 <= dx {
            proof {
                if ky == dyp {
                    lemma_no_y_overshoot(dx as int, dyp as int, pre_kx, pre_err);
                }
                assert(ky < dyp);
                assert((ky + 1) * dx == ky * dx + dx) by (nonlinear_arith);
                assert(sy * (ky + 1) == sy * ky + sy) by (nonlinear_arith);
                ky = ky + 1;
            }
            err = err + dx;
            y = y + sy;
        }
        proof {
            lemma_axis_position(ax as int, bx as int, sx as int, dx as int, kx, x as int);
            lemma_axis_position(ay as int, by as int, sy as int, dyp as int, ky, y as int);
            assert(line_walk(
                pre_x,
                pre_y,
                bx as int,
                by as int,
                sx as int,
                sy as int,
                dx as int,
                dy as int,
                pre_err,
            ) == seq![(pre_x, pre_y)] + line_walk(
                x as int,
                y as int,
                bx as int,
                by as int,
                sx as int,
                sy as int,
                dx as int,
                dy as int,
                err as int,
            ));
            assert(done + line_walk(
                x as int,
                y as int,
                bx as int,
                by as int,
                sx as int,
                sy as int,
                dx as int,
                dy as int,
                err as int,
            ) =~= total);
        }
    }
    proof {
        if point_a == point_b {
            lemma_line_singleton(ax as int, ay as int);
            assert(total =~= seq![(ax as int, ay as int)]);
            assert(g0.plot_all(total, cell) == g0.plot(ax as int, ay as int, cell).plot_all(
                total.drop_first(),
                cell,
            ));
            assert(total.drop_first() =~= Seq::<(int, int)>::empty());
        }
        lemma_plot_all_preserves(g0, total, cell);
    }
}

} // verus!
