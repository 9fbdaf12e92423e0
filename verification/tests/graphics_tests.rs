use test_os::graphics::calc_slope_point;
use test_os::graphics::draw_font_fg;
use test_os::graphics::draw_line;
use test_os::graphics::draw_point;
use test_os::graphics::draw_str_fg;
use test_os::graphics::draw_test_pattern;
use test_os::graphics::fill_rect;
use test_os::graphics::lookup_font;
use test_os::graphics::FrameBuffer;
use test_os::Error;

const GLYPH_A: &[u8] = b"0x41\n\
...**...\n\
..*..*..\n\
.*....*.\n\
.*....*.\n\
.******.\n\
.*....*.\n\
.*....*.\n\
.*....*.\n\
.*....*.\n\
.*....*.\n\
........\n\
........\n\
........\n\
........\n\
........\n\
........\n";

#[test]
fn draw_point_sets_one_pixel() {
    let mut fb = FrameBuffer::new(8, 8, 8);
    assert_eq!(draw_point(&mut fb, 0xabcdef, 3, 4), Ok(()));
    assert_eq!(fb.get_pixel(3, 4), 0xabcdef);
    assert_eq!(fb.get_pixel(4, 3), 0);
}

#[test]
fn draw_point_rejects_out_of_range() {
    let mut fb = FrameBuffer::new(8, 8, 8);
    assert_eq!(draw_point(&mut fb, 1, 8, 0), Err(Error::OutOfBounds));
    assert_eq!(draw_point(&mut fb, 1, 0, 8), Err(Error::OutOfBounds));
    assert_eq!(draw_point(&mut fb, 1, -1, 0), Err(Error::OutOfBounds));
    for x in 0..8 {
        for y in 0..8 {
            assert_eq!(fb.get_pixel(x, y), 0);
        }
    }
}

#[test]
fn fill_rect_paints_exactly_the_rectangle() {
    let mut fb = FrameBuffer::new(16, 16, 16);
    assert_eq!(fill_rect(&mut fb, 2, 3, 4, 5, 0xff00ff), Ok(()));
    for x in 0..16 {
        for y in 0..16 {
            let inside = (2..6).contains(&x) && (3..8).contains(&y);
            let expected = if inside { 0xff00ff } else { 0 };
            assert_eq!(fb.get_pixel(x, y), expected, "pixel ({x}, {y})");
        }
    }
}

#[test]
fn fill_rect_rejects_rectangles_that_stick_out() {
    let mut fb = FrameBuffer::new(16, 16, 16);
    assert_eq!(fill_rect(&mut fb, 10, 10, 8, 2, 1), Err(Error::OutOfBounds));
    assert_eq!(fill_rect(&mut fb, -1, 0, 4, 4, 1), Err(Error::OutOfBounds));
    assert_eq!(fb.get_pixel(10, 10), 0);
}

#[test]
fn the_visible_width_is_capped_by_the_scan_line() {
    // Width 8 on a 16-pixel scan line: columns 8..16 exist in the
    // store but are not drawable.
    let mut fb = FrameBuffer::new(8, 4, 16);
    assert_eq!(draw_point(&mut fb, 7, 7, 0), Ok(()));
    assert_eq!(draw_point(&mut fb, 9, 9, 0), Err(Error::OutOfBounds));
}

#[test]
fn slope_points_follow_the_midpoint_rule() {
    assert_eq!(calc_slope_point(10, 5, 4), Some(2));
    assert_eq!(calc_slope_point(10, 5, 5), Some(3));
    assert_eq!(calc_slope_point(4, 4, 3), Some(3));
    assert_eq!(calc_slope_point(7, 2, 0), Some(0));
    assert_eq!(calc_slope_point(7, 2, 7), Some(2));
    assert_eq!(calc_slope_point(0, 0, 3), Some(0));
    assert_eq!(calc_slope_point(3, 5, 1), None);
    assert_eq!(calc_slope_point(10, 5, 11), None);
    assert_eq!(calc_slope_point(10, 5, -1), None);
}

#[test]
fn a_horizontal_line_stops_before_its_endpoint() {
    let mut fb = FrameBuffer::new(16, 16, 16);
    assert_eq!(draw_line(&mut fb, 7, 2, 5, 9, 5), Ok(()));
    for x in 2..9 {
        assert_eq!(fb.get_pixel(x, 5), 7, "column {x}");
    }
    assert_eq!(fb.get_pixel(9, 5), 0);
    assert_eq!(fb.get_pixel(1, 5), 0);
    assert_eq!(fb.get_pixel(5, 4), 0);
}

#[test]
fn a_diagonal_line_steps_once_per_column() {
    let mut fb = FrameBuffer::new(16, 16, 16);
    assert_eq!(draw_line(&mut fb, 9, 0, 0, 4, 4), Ok(()));
    for d in 0..4 {
        assert_eq!(fb.get_pixel(d, d), 9, "step {d}");
    }
    assert_eq!(fb.get_pixel(4, 4), 0);
    assert_eq!(fb.get_pixel(1, 0), 0);
}

#[test]
fn lines_are_rejected_when_an_endpoint_is_off_screen() {
    let mut fb = FrameBuffer::new(16, 16, 16);
    assert_eq!(draw_line(&mut fb, 1, 0, 0, 16, 0), Err(Error::OutOfBounds));
    assert_eq!(fb.get_pixel(0, 0), 0);
}

#[test]
fn lookup_font_finds_a_glyph_by_its_code() {
    let glyph = lookup_font(GLYPH_A, 'A').expect("the font holds A");
    let dots = &glyph.dots;
    assert_eq!(dots.len(), 128);
    // Row 0 is "...**...".
    assert_eq!(dots[3], b'*');
    assert_eq!(dots[4], b'*');
    assert_eq!(dots[0], b'.');
    // Row 4 is ".******.".
    for x in 1..7 {
        assert_eq!(dots[4 * 8 + x], b'*');
    }
    assert_eq!(dots[4 * 8], b'.');
}

#[test]
fn lookup_font_misses_absent_and_wide_characters() {
    assert!(lookup_font(GLYPH_A, 'B').is_none());
    assert!(lookup_font(GLYPH_A, '\u{1F600}').is_none());
    assert!(lookup_font(b"", 'A').is_none());
}

#[test]
fn short_glyph_rows_are_padded_with_stars() {
    let font: &[u8] = b"0x2e\n..\n";
    let glyph = lookup_font(font, '.').expect("the font holds the dot");
    assert_eq!(glyph.dots[0], b'.');
    assert_eq!(glyph.dots[1], b'.');
    // The rest of the first row, and every missing row, reads `*`.
    for x in 2..8 {
        assert_eq!(glyph.dots[x], b'*');
    }
    assert_eq!(glyph.dots[5 * 8 + 3], b'*');
}

#[test]
fn draw_font_lights_exactly_the_star_cells() {
    let mut fb = FrameBuffer::new(16, 20, 16);
    draw_font_fg(&mut fb, 1, 2, 0x00ff00, 'A', GLYPH_A);
    // Row 0 of the glyph: "...**...".
    assert_eq!(fb.get_pixel(1 + 3, 2), 0x00ff00);
    assert_eq!(fb.get_pixel(1 + 4, 2), 0x00ff00);
    assert_eq!(fb.get_pixel(1, 2), 0);
    // Row 4: ".******.".
    for x in 1..7 {
        assert_eq!(fb.get_pixel(1 + x, 2 + 4), 0x00ff00);
    }
    // A character without a glyph draws nothing.
    let mut other = FrameBuffer::new(16, 20, 16);
    draw_font_fg(&mut other, 1, 2, 0x00ff00, 'B', GLYPH_A);
    for x in 0..16 {
        for y in 0..20 {
            assert_eq!(other.get_pixel(x, y), 0);
        }
    }
}

#[test]
fn draw_str_advances_eight_columns_per_character() {
    let mut fb = FrameBuffer::new(32, 20, 32);
    draw_str_fg(&mut fb, 0, 0, 5, "AA", GLYPH_A);
    assert_eq!(fb.get_pixel(3, 0), 5);
    assert_eq!(fb.get_pixel(8 + 3, 0), 5);
    assert_eq!(fb.get_pixel(16 + 3, 0), 0);
}

#[test]
fn the_test_pattern_stays_in_its_strip() {
    let mut fb = FrameBuffer::new(200, 512, 200);
    draw_test_pattern(&mut fb, GLYPH_A);
    let left = 200 - 129;
    // Left of the strip nothing changes.
    for x in 0..left {
        assert_eq!(fb.get_pixel(x, 100), 0, "column {x}");
    }
    // The second square of the first row holds the complement of
    // black, away from the square's diagonals.
    assert_eq!(fb.get_pixel(left + 100, 32), 0xffffffff);
}
