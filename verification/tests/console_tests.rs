use fbcon::console::{ConsoleError, TextConsole};
use fbcon::framebuffer::FramebufferDevice;
use fbcon::glyph::ascii_to_matrix;

const WHITE: u32 = 0x00FF_FFFF;

fn console(width: usize, height: usize, scale: usize) -> TextConsole {
    let fb = FramebufferDevice::new(width, height, width * 4).unwrap();
    TextConsole::new(fb, scale).unwrap()
}

fn cell(c: &TextConsole, x: usize, y: usize) -> u32 {
    c.device().read_cell(x, y).unwrap()
}

/// The colors an 8x8 glyph blitted at the origin with scale 1 should leave.
fn expect_glyph(c: &TextConsole, ch: char, x0: usize, y0: usize, fg: u32, bg: u32) {
    let glyph = ascii_to_matrix(ch);
    for row in 0..8 {
        for col in 0..8 {
            let on = (glyph[row] >> col) & 1 == 1;
            let expected = if on { fg } else { bg };
            assert_eq!(cell(c, x0 + col, y0 + row), expected, "{ch} at ({col}, {row})");
        }
    }
}

#[test]
fn construction_refused_zero_scale() {
    let fb = FramebufferDevice::new(64, 64, 256).unwrap();
    let r = TextConsole::new(fb, 0);
    assert!(matches!(r, Err(ConsoleError::ZeroScale)));
}

#[test]
fn construction_refused_oversized_cell() {
    let fb = FramebufferDevice::new(64, 64, 256).unwrap();
    let r = TextConsole::new(fb, 9);
    assert!(matches!(r, Err(ConsoleError::CellTooLarge)));
}

#[test]
fn newline_returns_the_cursor_and_moves_one_cell_down() {
    let mut c = console(32, 32, 1);
    c.draw_string("ab");
    assert_eq!((c.cursor_x(), c.cursor_y()), (16, 0));
    c.draw_string("\n");
    assert_eq!((c.cursor_x(), c.cursor_y()), (0, 8));
    c.draw_string("cd");
    // after the fourth character the cursor sits one cell height down
    assert_eq!((c.cursor_x(), c.cursor_y()), (16, 8));
}

#[test]
fn carriage_return_only_rewinds_the_column() {
    let mut c = console(32, 32, 1);
    c.draw_string("ab\r");
    assert_eq!((c.cursor_x(), c.cursor_y()), (0, 0));
}

#[test]
fn written_characters_render_their_glyphs() {
    let mut c = console(32, 16, 1);
    c.draw_string("ab");
    expect_glyph(&c, 'a', 0, 0, WHITE, 0);
    expect_glyph(&c, 'b', 8, 0, WHITE, 0);
}

#[test]
fn set_color_changes_subsequent_glyphs_only() {
    let mut c = console(32, 16, 1);
    c.draw_string("a");
    c.set_color(0x00FF_0000, 0x0000_FF00);
    c.draw_string("b");
    expect_glyph(&c, 'a', 0, 0, WHITE, 0);
    expect_glyph(&c, 'b', 8, 0, 0x00FF_0000, 0x0000_FF00);
}

#[test]
fn draw_char_blits_at_the_given_position_only() {
    let mut c = console(16, 16, 1);
    c.draw_char('A', 3, 2, 0x00AA_0000, 0x0000_0000);
    expect_glyph(&c, 'A', 3, 2, 0x00AA_0000, 0);
    // nothing outside the 8x8 cell at (3, 2) is touched
    for y in 0..16 {
        for x in 0..16 {
            if !((3..11).contains(&x) && (2..10).contains(&y)) {
                assert_eq!(cell(&c, x, y), 0);
            }
        }
    }
    // and the cursor stayed where it was
    assert_eq!((c.cursor_x(), c.cursor_y()), (0, 0));
}

#[test]
fn unprintable_characters_render_the_replacement_glyph() {
    let mut c = console(16, 16, 1);
    c.write_char('\u{1}');
    expect_glyph(&c, '?', 0, 0, WHITE, 0);
}

#[test]
fn long_lines_wrap_to_the_next_row() {
    let mut c = console(16, 24, 1);
    c.draw_string("abc");
    expect_glyph(&c, 'a', 0, 0, WHITE, 0);
    expect_glyph(&c, 'b', 8, 0, WHITE, 0);
    expect_glyph(&c, 'c', 0, 8, WHITE, 0);
    assert_eq!((c.cursor_x(), c.cursor_y()), (8, 8));
}

#[test]
fn scaled_glyphs_magnify_each_bit_into_a_block() {
    let mut c = console(16, 16, 2);
    c.write_char('A');
    let glyph = ascii_to_matrix('A');
    for row in 0..8 {
        for col in 0..8 {
            let on = (glyph[row] >> col) & 1 == 1;
            let expected = if on { WHITE } else { 0 };
            for dy in 0..2 {
                for dx in 0..2 {
                    assert_eq!(cell(&c, col * 2 + dx, row * 2 + dy), expected);
                }
            }
        }
    }
}

#[test]
fn overflowing_the_bottom_scrolls_one_line_up() {
    // one column, two text lines
    let mut c = console(8, 16, 1);
    c.draw_string("ab");
    // 'a' sits in line 0, 'b' wrapped into line 1
    expect_glyph(&c, 'a', 0, 0, WHITE, 0);
    expect_glyph(&c, 'b', 0, 8, WHITE, 0);
    // remember the raster content of text line 1
    let mut former: Vec<u32> = Vec::new();
    for y in 8..16 {
        for x in 0..8 {
            former.push(cell(&c, x, y));
        }
    }
    c.draw_string("c");
    // exactly one scroll: former line 1 is now line 0 ...
    let mut moved: Vec<u32> = Vec::new();
    for y in 0..8 {
        for x in 0..8 {
            moved.push(cell(&c, x, y));
        }
    }
    assert_eq!(moved, former);
    // ... and the freed bottom line holds the new character
    expect_glyph(&c, 'c', 0, 8, WHITE, 0);
    assert_eq!((c.cursor_x(), c.cursor_y()), (8, 8));
}

#[test]
fn scroll_up_blanks_the_bottom_band_with_the_background() {
    let mut c = console(8, 16, 1);
    c.set_color(WHITE, 0x0000_00FF);
    c.draw_string("ab");
    c.scroll_up();
    // former line 1 ('b') moved to line 0
    expect_glyph(&c, 'b', 0, 0, WHITE, 0x0000_00FF);
    // the exposed bottom band is background-colored
    for y in 8..16 {
        for x in 0..8 {
            assert_eq!(cell(&c, x, y), 0x0000_00FF);
        }
    }
}
