use console_raster::cell::Cell;
use console_raster::color::Color;
use console_raster::framebuffer::FrameBuffer;
use console_raster::raster::clear;
use console_raster::raster::draw_point;
use console_raster::raster::draw_string;
use console_raster::raster::fill_rect;

fn buffer(width: i16, height: i16) -> FrameBuffer {
    let mut fb = FrameBuffer::new();
    fb.resize(width, height);
    fb
}

fn count_non_blank(fb: &FrameBuffer) -> usize {
    fb.snapshot().iter().filter(|c| **c != Cell::blank()).count()
}

#[test]
fn new_buffer_is_empty() {
    let fb = FrameBuffer::new();
    assert_eq!(fb.width(), 0);
    assert_eq!(fb.height(), 0);
    assert_eq!(fb.snapshot().len(), 0);
    assert_eq!(fb.get(0, 0), Cell::blank());
}

#[test]
fn point_then_get() {
    let mut fb = buffer(10, 10);
    draw_point(&mut fb, 5, 5, 'A', 0x0F);
    assert_eq!(fb.get(5, 5), Cell { glyph: 'A', attr: 0x0F });
    for y in 0..10 {
        for x in 0..10 {
            if (x, y) != (5, 5) {
                assert_eq!(fb.get(x, y), Cell::blank());
            }
        }
    }
    assert_eq!(count_non_blank(&fb), 1);
}

#[test]
fn point_out_of_range_is_ignored() {
    let mut fb = buffer(10, 10);
    draw_point(&mut fb, 10, 5, 'A', 0x0F);
    draw_point(&mut fb, 5, 10, 'A', 0x0F);
    draw_point(&mut fb, -1, 5, 'A', 0x0F);
    draw_point(&mut fb, 5, -1, 'A', 0x0F);
    draw_point(&mut fb, 32767, 32767, 'A', 0x0F);
    assert_eq!(count_non_blank(&fb), 0);
    assert_eq!(fb.width(), 10);
    assert_eq!(fb.height(), 10);
}

#[test]
fn clear_blanks_every_cell() {
    let mut fb = buffer(8, 6);
    fill_rect(&mut fb, 0, 0, 8, 6, '#', Color::FG_RED);
    assert_eq!(count_non_blank(&fb), 48);
    clear(&mut fb);
    assert_eq!(fb.width(), 8);
    assert_eq!(fb.height(), 6);
    assert_eq!(count_non_blank(&fb), 0);
    for y in 0..6 {
        for x in 0..8 {
            assert_eq!(fb.get(x, y), Cell::blank());
        }
    }
}

#[test]
fn fill_rect_block() {
    let mut fb = buffer(10, 10);
    fill_rect(&mut fb, 2, 2, 3, 2, '#', 0);
    for y in 0..10 {
        for x in 0..10 {
            if (2..5).contains(&x) && (2..4).contains(&y) {
                assert_eq!(fb.get(x, y), Cell { glyph: '#', attr: 0 });
            } else {
                assert_eq!(fb.get(x, y), Cell::blank());
            }
        }
    }
}

#[test]
fn fill_rect_degenerate_is_noop() {
    let mut fb = buffer(10, 10);
    fill_rect(&mut fb, 3, 3, 0, 0, '#', 0);
    assert_eq!(count_non_blank(&fb), 0);
    fill_rect(&mut fb, 3, 3, 0, 5, '#', 0);
    assert_eq!(count_non_blank(&fb), 0);
    fill_rect(&mut fb, 3, 3, 5, 0, '#', 0);
    assert_eq!(count_non_blank(&fb), 0);
    fill_rect(&mut fb, 3, 3, -2, -2, '#', 0);
    assert_eq!(count_non_blank(&fb), 0);
}

#[test]
fn fill_rect_clips_at_edges() {
    let mut fb = buffer(4, 4);
    fill_rect(&mut fb, 2, 2, 5, 5, '#', 0);
    for y in 0..4 {
        for x in 0..4 {
            if x >= 2 && y >= 2 {
                assert_eq!(fb.get(x, y), Cell { glyph: '#', attr: 0 });
            } else {
                assert_eq!(fb.get(x, y), Cell::blank());
            }
        }
    }
}

#[test]
fn string_written_left_to_right() {
    let mut fb = buffer(10, 10);
    draw_string(&mut fb, 1, 4, "hey", 0x0A);
    assert_eq!(fb.get(1, 4), Cell { glyph: 'h', attr: 0x0A });
    assert_eq!(fb.get(2, 4), Cell { glyph: 'e', attr: 0x0A });
    assert_eq!(fb.get(3, 4), Cell { glyph: 'y', attr: 0x0A });
    assert_eq!(count_non_blank(&fb), 3);
}

#[test]
fn string_truncated_at_right_edge() {
    let mut fb = buffer(10, 10);
    draw_string(&mut fb, 7, 0, "hello", 0);
    assert_eq!(fb.get(7, 0), Cell { glyph: 'h', attr: 0 });
    assert_eq!(fb.get(8, 0), Cell { glyph: 'e', attr: 0 });
    assert_eq!(fb.get(9, 0), Cell { glyph: 'l', attr: 0 });
    assert_eq!(count_non_blank(&fb), 3);
}

#[test]
fn string_clipped_on_the_left() {
    let mut fb = buffer(10, 10);
    draw_string(&mut fb, -2, 3, "abcd", 0);
    assert_eq!(fb.get(0, 3), Cell { glyph: 'c', attr: 0 });
    assert_eq!(fb.get(1, 3), Cell { glyph: 'd', attr: 0 });
    assert_eq!(count_non_blank(&fb), 2);
}

#[test]
fn resize_then_out_of_bounds_point() {
    let mut fb = buffer(10, 10);
    draw_point(&mut fb, 8, 8, 'A', 0);
    assert_eq!(fb.get(8, 8), Cell { glyph: 'A', attr: 0 });
    fb.resize(4, 4);
    assert_eq!(fb.width(), 4);
    assert_eq!(fb.height(), 4);
    assert_eq!(count_non_blank(&fb), 0);
    draw_point(&mut fb, 8, 8, 'A', 0);
    assert_eq!(count_non_blank(&fb), 0);
    assert_eq!(fb.get(8, 8), Cell::blank());
}

#[test]
fn resize_negative_gives_empty_buffer() {
    let mut fb = buffer(10, 10);
    fb.resize(-3, -2);
    assert_eq!(fb.width(), 0);
    assert_eq!(fb.height(), 0);
    assert_eq!(fb.snapshot().len(), 0);
    draw_point(&mut fb, 0, 0, 'A', 0);
    assert_eq!(fb.snapshot().len(), 0);
}

#[test]
fn snapshot_is_row_major() {
    let mut fb = buffer(5, 3);
    fb.set(1, 0, Cell { glyph: 'a', attr: 1 });
    fb.set(4, 2, Cell { glyph: 'b', attr: 2 });
    let cells = fb.snapshot();
    assert_eq!(cells.len(), 15);
    assert_eq!(cells[0 * 5 + 1], Cell { glyph: 'a', attr: 1 });
    assert_eq!(cells[2 * 5 + 4], Cell { glyph: 'b', attr: 2 });
}

#[test]
fn color_codes() {
    assert_eq!(Color::FG_BLACK, 0x0000);
    assert_eq!(Color::FG_WHITE, 0x000F);
    assert_eq!(Color::BG_WHITE, 0x00F0);
    assert_eq!(Color::FG_YELLOW, 0x000E);
    assert_eq!(Color::BG_DARKBLUE, 0x0010);
}

#[test]
fn blank_cell_is_space_with_zero_attr() {
    assert_eq!(Cell::blank(), Cell { glyph: ' ', attr: 0 });
    assert_eq!(Cell::new('x', 7), Cell { glyph: 'x', attr: 7 });
}
