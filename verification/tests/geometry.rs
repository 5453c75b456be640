use console_raster::cell::Cell;
use console_raster::circle::draw_circle;
use console_raster::framebuffer::FrameBuffer;
use console_raster::line::draw_line;
use console_raster::polygon::draw_polygon;

fn buffer(width: i16, height: i16) -> FrameBuffer {
    let mut fb = FrameBuffer::new();
    fb.resize(width, height);
    fb
}

fn lit_points(fb: &FrameBuffer) -> Vec<(i16, i16)> {
    let mut out = Vec::new();
    for y in 0..fb.height() {
        for x in 0..fb.width() {
            if fb.get(x, y) != Cell::blank() {
                out.push((x, y));
            }
        }
    }
    out
}

fn assert_lit_exactly(fb: &FrameBuffer, expected: &[(i16, i16)]) {
    let mut lit = lit_points(fb);
    lit.sort();
    let mut want: Vec<(i16, i16)> = expected.to_vec();
    want.sort();
    want.dedup();
    assert_eq!(lit, want);
}

#[test]
fn line_degenerate_plots_one_point() {
    let mut fb = buffer(10, 10);
    draw_line(&mut fb, (2, 3), (2, 3), '*', 0);
    assert_lit_exactly(&fb, &[(2, 3)]);
}

#[test]
fn line_diagonal() {
    let mut fb = buffer(10, 10);
    draw_line(&mut fb, (0, 0), (3, 3), '*', 0);
    assert_lit_exactly(&fb, &[(0, 0), (1, 1), (2, 2), (3, 3)]);
}

#[test]
fn line_horizontal_and_vertical() {
    let mut fb = buffer(10, 10);
    draw_line(&mut fb, (1, 2), (5, 2), '*', 0);
    assert_lit_exactly(&fb, &[(1, 2), (2, 2), (3, 2), (4, 2), (5, 2)]);

    let mut fb2 = buffer(10, 10);
    draw_line(&mut fb2, (4, 6), (4, 3), '*', 0);
    assert_lit_exactly(&fb2, &[(4, 3), (4, 4), (4, 5), (4, 6)]);
}

#[test]
fn line_swapped_endpoints_match_on_axis_lines() {
    let mut fwd = buffer(10, 10);
    let mut bwd = buffer(10, 10);
    draw_line(&mut fwd, (1, 2), (7, 2), '*', 0);
    draw_line(&mut bwd, (7, 2), (1, 2), '*', 0);
    assert_eq!(lit_points(&fwd), lit_points(&bwd));

    let mut fwd2 = buffer(10, 10);
    let mut bwd2 = buffer(10, 10);
    draw_line(&mut fwd2, (3, 1), (3, 8), '*', 0);
    draw_line(&mut bwd2, (3, 8), (3, 1), '*', 0);
    assert_eq!(lit_points(&fwd2), lit_points(&bwd2));

    let mut fwd3 = buffer(10, 10);
    let mut bwd3 = buffer(10, 10);
    draw_line(&mut fwd3, (1, 8), (8, 1), '*', 0);
    draw_line(&mut bwd3, (8, 1), (1, 8), '*', 0);
    assert_eq!(lit_points(&fwd3), lit_points(&bwd3));
}

#[test]
fn line_swapped_endpoints_match_on_odd_spans() {
    let mut fwd = buffer(10, 10);
    let mut bwd = buffer(10, 10);
    draw_line(&mut fwd, (1, 2), (6, 5), '*', 0);
    draw_line(&mut bwd, (6, 5), (1, 2), '*', 0);
    assert_eq!(lit_points(&fwd), lit_points(&bwd));
}

#[test]
fn line_two_to_one_slope_exact() {
    let mut fb = buffer(10, 10);
    draw_line(&mut fb, (0, 0), (2, 1), '*', 0);
    assert_lit_exactly(&fb, &[(0, 0), (1, 1), (2, 1)]);
}

#[test]
fn line_shallow_slope_gap_free() {
    let mut fb = buffer(10, 10);
    draw_line(&mut fb, (0, 0), (5, 2), '*', 0);
    let lit = lit_points(&fb);
    assert_eq!(lit.len(), 6);
    for x in 0..=5i16 {
        assert!(lit.iter().any(|p| p.0 == x));
    }
    assert!(lit.contains(&(0, 0)));
    assert!(lit.contains(&(5, 2)));
}

#[test]
fn line_clipped_outside() {
    let mut fb = buffer(4, 4);
    draw_line(&mut fb, (-2, 1), (5, 1), '*', 0);
    assert_lit_exactly(&fb, &[(0, 1), (1, 1), (2, 1), (3, 1)]);
}

#[test]
fn polygon_empty_is_noop() {
    let mut fb = buffer(10, 10);
    draw_polygon(&mut fb, &Vec::new(), '#', 0);
    assert_lit_exactly(&fb, &[]);
}

#[test]
fn polygon_single_vertex_plots_point() {
    let mut fb = buffer(10, 10);
    draw_polygon(&mut fb, &vec![(6, 7)], '#', 3);
    assert_lit_exactly(&fb, &[(6, 7)]);
    assert_eq!(fb.get(6, 7), Cell { glyph: '#', attr: 3 });
}

#[test]
fn polygon_rectangle_outline() {
    let mut fb = buffer(10, 10);
    draw_polygon(&mut fb, &vec![(0, 0), (4, 0), (4, 4), (0, 4)], '#', 0);
    let mut expected = Vec::new();
    for i in 0..=4i16 {
        expected.push((i, 0));
        expected.push((i, 4));
        expected.push((0, i));
        expected.push((4, i));
    }
    assert_lit_exactly(&fb, &expected);
    for y in 1..4 {
        for x in 1..4 {
            assert_eq!(fb.get(x, y), Cell::blank());
        }
    }
}

#[test]
fn polygon_two_vertices_draws_segment_both_ways() {
    let mut fb = buffer(10, 10);
    draw_polygon(&mut fb, &vec![(1, 1), (4, 1)], '#', 0);
    assert_lit_exactly(&fb, &[(1, 1), (2, 1), (3, 1), (4, 1)]);
}

#[test]
fn circle_radius_three_outline() {
    let mut fb = buffer(11, 11);
    draw_circle(&mut fb, 5, 5, 3, '*', 0, false);
    let expected = [
        (8, 5),
        (5, 8),
        (2, 5),
        (5, 2),
        (8, 6),
        (2, 6),
        (8, 4),
        (2, 4),
        (6, 8),
        (4, 8),
        (6, 2),
        (4, 2),
        (7, 7),
        (3, 7),
        (7, 3),
        (3, 3),
    ];
    assert_lit_exactly(&fb, &expected);
}

#[test]
fn circle_zero_or_negative_radius_is_noop() {
    let mut fb = buffer(10, 10);
    draw_circle(&mut fb, 5, 5, 0, '*', 0, false);
    draw_circle(&mut fb, 5, 5, 0, '*', 0, true);
    draw_circle(&mut fb, 5, 5, -2, '*', 0, false);
    draw_circle(&mut fb, 5, 5, -2, '*', 0, true);
    assert_lit_exactly(&fb, &[]);
}

#[test]
fn circle_radius_two_filled() {
    let mut fb = buffer(10, 10);
    draw_circle(&mut fb, 5, 5, 2, '*', 0, true);
    let mut expected = Vec::new();
    for y in 3..=7i16 {
        expected.push((4, y));
        expected.push((5, y));
        expected.push((6, y));
    }
    for y in 4..=6i16 {
        expected.push((3, y));
        expected.push((7, y));
    }
    assert_lit_exactly(&fb, &expected);
}

#[test]
fn circle_clipped_by_the_edge() {
    let mut fb = buffer(4, 4);
    draw_circle(&mut fb, 0, 0, 3, '*', 0, false);
    let expected = [(3, 0), (0, 3), (3, 1), (1, 3), (2, 2)];
    assert_lit_exactly(&fb, &expected);
}
