//! The scrolling text console: a cursor over a framebuffer, glyph blitting
//! with an integer scale factor, line wrap, and scroll-up when the cursor
//! walks off the bottom of the frame.
//!
//! A console owns its framebuffer. Its whole behaviour is the state machine
//! [`ConsoleView::step_char`]: `'\n'` moves the cursor to the start of the
//! next line, `'\r'` to the start of the current one, and any other character
//! wraps the cursor if its cell would cross the right edge, scrolls once if
//! the cell would cross the bottom edge, blits the glyph, and advances the
//! cursor by one scaled cell.

use vstd::prelude::*;
use vstd::arithmetic::div_mod::{
    lemma_fundamental_div_mod,
    lemma_fundamental_div_mod_converse,
    lemma_multiply_divide_lt,
    lemma_div_pos_is_pos,
    lemma_mod_bound,
};
use crate::framebuffer::{FbView, FramebufferDevice, lemma_index_bijection};
use crate::glyph::{ascii_to_matrix, glyph_seq};

verus! {

/// Why a console construction was refused.
#[derive(Clone, Copy, Debug, PartialEq, Eq, Structural)]
pub enum ConsoleError {
    /// The magnification factor was zero.
    ZeroScale,
    /// One scaled 8x8 character cell would not fit the frame.
    CellTooLarge,
}

/// Whether bit `col` of glyph row `row` is set; bit 0 is the leftmost column.
pub open spec fn glyph_bit(glyph: Seq<u8>, col: int, row: int) -> bool {
    (glyph[row] >> (col as u8)) & 1 == 1
}

/// `v` with the 8x8 bitmap `glyph` blitted at `(x, y)`, every glyph bit drawn
/// as a `scale * scale` block, set bits in `fg` and clear bits in `bg`,
/// clipped to the visible frame.
pub open spec fn blit_cells(
    v: FbView,
    glyph: Seq<u8>,
    x: int,
    y: int,
    scale: int,
    fg: u32,
    bg: u32,
) -> FbView {
    FbView {
        cells: Seq::new(
            v.cells.len(),
            |i: int|
                {
                    let px = i % v.stride;
                    let py = i / v.stride;
                    if v.in_frame(px, py) && x <= px < x + 8 * scale && y <= py < y + 8 * scale {
                        if glyph_bit(glyph, (px - x) / scale, (py - y) / scale) {
                            fg
                        } else {
                            bg
                        }
                    } else {
                        v.cells[i]
                    }
                },
        ),
        ..v
    }
}

/// `v` scrolled up by a band of `band` raster rows: every cell, row padding
/// included, moves up by `band` rows, and the `band` rows newly exposed at the
/// bottom are blanked to `blank`.
pub open spec fn scrolled_cells(v: FbView, band: int, blank: u32) -> FbView {
    FbView {
        cells: Seq::new(
            v.cells.len(),
            |i: int|
                if i < (v.height - band) * v.stride {
                    v.cells[i + band * v.stride]
                } else {
                    blank
                },
        ),
        ..v
    }
}

/// Whether `ch` is a printable ASCII character; anything else (other than the
/// control characters the console interprets) renders as the replacement
/// glyph.
pub open spec fn is_printable(ch: char) -> bool {
    0x20 <= ch as u32 <= 0x7e
}

/// The bitmap the console blits for `ch`: the character's own glyph when it
/// is printable ASCII, the `'?'` glyph for everything else.
pub open spec fn display_glyph(ch: char) -> Seq<u8> {
    if is_printable(ch) {
        glyph_seq(ch)
    } else {
        glyph_seq('?')
    }
}

/// How a scrolled buffer reads back cell by cell: every surviving row holds
/// what stood one band below it, and the exposed bottom band reads back blank.
pub proof fn lemma_scrolled_cell(v: FbView, band: int, blank: u32, px: int, py: int)
    requires
        v.wf(),
        0 <= band <= v.height,
        0 <= px < v.stride,
        0 <= py < v.height,
    ensures
        scrolled_cells(v, band, blank).cell(px, py) == if py < v.height - band {
            v.cell(px, py + band)
        } else {
            blank
        },
{
    crate::framebuffer::lemma_index_bijection(v.stride, v.height, px, py);
    let i = py * v.stride + px;
    assert((py < v.height - band ==> i < (v.height - band) * v.stride) && (py >= v.height - band
        ==> i >= (v.height - band) * v.stride) && i + band * v.stride == (py + band) * v.stride
        + px) by (nonlinear_arith)
        requires
            i == py * v.stride + px,
            0 <= px < v.stride,
            0 <= py < v.height,
            0 <= band <= v.height,
    ;
}

/// How a blitted buffer reads back cell by cell: inside the clipped glyph
/// block the cell holds the color of the glyph bit it magnifies, everywhere
/// else it is untouched.
pub proof fn lemma_blit_cell(
    v: FbView,
    glyph: Seq<u8>,
    x: int,
    y: int,
    scale: int,
    fg: u32,
    bg: u32,
    px: int,
    py: int,
)
    requires
        v.wf(),
        0 <= px < v.stride,
        0 <= py < v.height,
    ensures
        blit_cells(v, glyph, x, y, scale, fg, bg).cell(px, py) == if v.in_frame(px, py) && x <= px
            < x + 8 * scale && y <= py < y + 8 * scale {
            if glyph_bit(glyph, (px - x) / scale, (py - y) / scale) {
                fg
            } else {
                bg
            }
        } else {
            v.cell(px, py)
        },
{
    crate::framebuffer::lemma_index_bijection(v.stride, v.height, px, py);
}

/// The mathematical model of a console: the framebuffer it owns, the
/// pixel-space cursor, the fixed magnification, and the pen colors.
#[verifier::ext_equal]
pub ghost struct ConsoleView {
    pub fb: FbView,
    pub cursor_x: int,
    pub cursor_y: int,
    pub scale: int,
    pub fg: u32,
    pub bg: u32,
}

impl ConsoleView {
    /// The side of one scaled character cell in pixels.
    pub open spec fn cell_px(self) -> int {
        8 * self.scale
    }

    /// A well-formed console: a well-formed framebuffer, a positive scale
    /// whose cell fits the frame, and a cursor inside the frame (its resting
    /// position may sit on the right or bottom edge).
    pub open spec fn wf(self) -> bool {
        &&& self.fb.wf()
        &&& 1 <= self.scale
        &&& self.cell_px() <= self.fb.width
        &&& self.cell_px() <= self.fb.height
        &&& 0 <= self.cursor_x <= self.fb.width
        &&& 0 <= self.cursor_y <= self.fb.height
    }

    /// One newline: back to the left edge, one cell down; the cursor rests at
    /// the bottom edge rather than running past it (any overshoot behaves the
    /// same: the next printed character scrolls once and pins the cursor).
    pub open spec fn step_newline(self) -> ConsoleView {
        ConsoleView {
            cursor_x: 0,
            cursor_y: vstd::math::min(self.cursor_y + self.cell_px(), self.fb.height),
            ..self
        }
    }

    /// One carriage return: back to the left edge, no vertical move.
    pub open spec fn step_return(self) -> ConsoleView {
        ConsoleView { cursor_x: 0, ..self }
    }

    /// One printed character: wrap if the cell would cross the right edge,
    /// scroll up one cell-band and pin the cursor to the last full row if the
    /// cell would cross the bottom edge, blit the glyph, advance the cursor.
    pub open spec fn step_print(self, ch: char) -> ConsoleView {
        let cw = self.cell_px();
        let wrap = self.cursor_x + cw > self.fb.width;
        let nx: int = if wrap {
            0
        } else {
            self.cursor_x
        };
        let wy: int = if wrap {
            self.cursor_y + cw
        } else {
            self.cursor_y
        };
        let scroll = wy + cw > self.fb.height;
        let fb1 = if scroll {
            scrolled_cells(self.fb, cw, self.bg)
        } else {
            self.fb
        };
        let ny: int = if scroll {
            self.fb.height - cw
        } else {
            wy
        };
        let fb2 = blit_cells(fb1, display_glyph(ch), nx, ny, self.scale, self.fg, self.bg);
        ConsoleView { fb: fb2, cursor_x: nx + cw, cursor_y: ny, ..self }
    }

    /// The console after one character: the whole state machine.
    pub open spec fn step_char(self, ch: char) -> ConsoleView {
        if ch == '\n' {
            self.step_newline()
        } else if ch == '\r' {
            self.step_return()
        } else {
            self.step_print(ch)
        }
    }

    /// The console after a whole character sequence, character by character.
    pub open spec fn step_string(self, s: Seq<char>) -> ConsoleView
        decreases s.len(),
    {
        if s.len() == 0 {
            self
        } else {
            self.step_char(s[0]).step_string(s.drop_first())
        }
    }
}

/// Stepping a string one character longer steps the appended character last.
pub proof fn lemma_step_string_snoc(v: ConsoleView, s: Seq<char>, ch: char)
    ensures
        v.step_string(s.push(ch)) == v.step_string(s).step_char(ch),
    decreases s.len(),
{
    if s.len() == 0 {
        assert(s.push(ch)[0] == ch);
        assert(s.push(ch).drop_first() =~= Seq::<char>::empty());
        assert(v.step_string(s.push(ch)) == v.step_char(ch).step_string(Seq::<char>::empty()));
        assert(v.step_char(ch).step_string(Seq::<char>::empty()) == v.step_char(ch));
        assert(v.step_string(s) == v);
    } else {
        assert(s.push(ch)[0] == s[0]);
        assert(s.push(ch).drop_first() =~= s.drop_first().push(ch));
        assert(v.step_string(s.push(ch)) == v.step_char(s[0]).step_string(
            s.drop_first().push(ch),
        ));
        lemma_step_string_snoc(v.step_char(s[0]), s.drop_first(), ch);
        assert(v.step_string(s) == v.step_char(s[0]).step_string(s.drop_first()));
    }
}

/// The first `n` scaled pixels of a glyph blit, row-major over the
/// `8 scale * 8 scale` block: the proof skeleton of the blit loop.
spec fn blit_upto(
    v: FbView,
    glyph: Seq<u8>,
    x: int,
    y: int,
    scale: int,
    fg: u32,
    bg: u32,
    n: int,
) -> FbView {
    FbView {
        cells: Seq::new(
            v.cells.len(),
            |i: int|
                {
                    let px = i % v.stride;
                    let py = i / v.stride;
                    if v.in_frame(px, py) && x <= px < x + 8 * scale && y <= py < y + 8 * scale && (
                    py - y) * (8 * scale) + (px - x) < n {
                        if glyph_bit(glyph, (px - x) / scale, (py - y) / scale) {
                            fg
                        } else {
                            bg
                        }
                    } else {
                        v.cells[i]
                    }
                },
        ),
        ..v
    }
}

/// The flat index `i` of a well-formed buffer decomposes into a column below
/// the stride and a row below the height.
proof fn lemma_grid_of_index(v: FbView, i: int)
    requires
        v.wf(),
        0 <= i < v.cells.len(),
    ensures
        0 <= i % v.stride < v.stride,
        0 <= i / v.stride < v.height,
        i == (i / v.stride) * v.stride + (i % v.stride),
{
    lemma_mod_bound(i, v.stride);
    lemma_div_pos_is_pos(i, v.stride);
    assert(v.stride * v.height == v.cells.len()) by (nonlinear_arith)
        requires
            v.cells.len() == v.stride * v.height,
    ;
    lemma_multiply_divide_lt(i, v.stride, v.height);
    lemma_fundamental_div_mod(i, v.stride);
    assert(v.stride * (i / v.stride) == (i / v.stride) * v.stride) by (nonlinear_arith);
}

/// Extending a partial blit by one scaled pixel is one bounds-checked write:
/// the pixel at block offset `(n % cw, n / cw)` (with `cw` the scaled cell
/// side), in the glyph color of the block it magnifies.
proof fn lemma_blit_upto_step(
    v: FbView,
    glyph: Seq<u8>,
    x: int,
    y: int,
    scale: int,
    fg: u32,
    bg: u32,
    n: int,
)
    requires
        v.wf(),
        scale >= 1,
        0 <= x,
        0 <= y,
        0 <= n < (8 * scale) * (8 * scale),
    ensures
        blit_upto(v, glyph, x, y, scale, fg, bg, n + 1) == blit_upto(
            v,
            glyph,
            x,
            y,
            scale,
            fg,
            bg,
            n,
        ).put(
            x + n % (8 * scale),
            y + n / (8 * scale),
            if glyph_bit(glyph, (n % (8 * scale)) / scale, (n / (8 * scale)) / scale) {
                fg
            } else {
                bg
            },
        ),
{
    let cw = 8 * scale;
    let ox = n % cw;
    let oy = n / cw;
    lemma_mod_bound(n, cw);
    lemma_div_pos_is_pos(n, cw);
    lemma_multiply_divide_lt(n, cw, cw);
    lemma_fundamental_div_mod(n, cw);
    assert(cw * (n / cw) == (n / cw) * cw) by (nonlinear_arith);
    let tx = x + ox;
    let ty = y + oy;
    let c = if glyph_bit(glyph, ox / scale, oy / scale) {
        fg
    } else {
        bg
    };
    let before = blit_upto(v, glyph, x, y, scale, fg, bg, n);
    let after = blit_upto(v, glyph, x, y, scale, fg, bg, n + 1);
    if v.in_frame(tx, ty) {
        lemma_index_bijection(v.stride, v.height, tx, ty);
        let t = ty * v.stride + tx;
        assert forall|i: int| 0 <= i < v.cells.len() implies after.cells[i]
            == before.cells.update(t, c)[i] by {
            lemma_grid_of_index(v, i);
            let px = i % v.stride;
            let py = i / v.stride;
            if i == t {
                assert(px == tx && py == ty);
                assert((py - y) * cw + (px - x) == n);
            } else {
                if v.in_frame(px, py) && x <= px < x + cw && y <= py < y + cw && (py - y) * cw + (px
                    - x) == n {
                    lemma_fundamental_div_mod_converse(n, cw, py - y, px - x);
                    assert(px == tx && py == ty);
                    assert(i == t);
                }
            }
        }
        assert(after.cells =~= before.cells.update(t, c));
        assert(after =~= before.put(tx, ty, c));
    } else {
        assert forall|i: int| 0 <= i < v.cells.len() implies after.cells[i] == before.cells[i] by {
            lemma_grid_of_index(v, i);
            let px = i % v.stride;
            let py = i / v.stride;
            if v.in_frame(px, py) && x <= px < x + cw && y <= py < y + cw && (py - y) * cw + (px
                - x) == n {
                lemma_fundamental_div_mod_converse(n, cw, py - y, px - x);
                assert(px == tx && py == ty);
            }
        }
        assert(after.cells =~= before.cells);
        assert(after =~= before.put(tx, ty, c));
    }
}

/// A partial blit that has covered the whole block is the blit itself.
proof fn lemma_blit_upto_full(v: FbView, glyph: Seq<u8>, x: int, y: int, scale: int, fg: u32, bg: u32)
    requires
        v.wf(),
        scale >= 1,
    ensures
        blit_upto(v, glyph, x, y, scale, fg, bg, (8 * scale) * (8 * scale)) == blit_cells(
            v,
            glyph,
            x,
            y,
            scale,
            fg,
            bg,
        ),
{
    let cw = 8 * scale;
    let a = blit_upto(v, glyph, x, y, scale, fg, bg, cw * cw);
    let b = blit_cells(v, glyph, x, y, scale, fg, bg);
    assert forall|i: int| 0 <= i < v.cells.len() implies a.cells[i] == b.cells[i] by {
        lemma_grid_of_index(v, i);
        let px = i % v.stride;
        let py = i / v.stride;
        if x <= px < x + cw && y <= py < y + cw {
            assert((py - y) * cw + (px - x) < cw * cw) by (nonlinear_arith)
                requires
                    0 <= px - x < cw,
                    0 <= py - y < cw,
            ;
        }
    }
    assert(a.cells =~= b.cells);
    assert(a =~= b);
}

/// A scrolling text console over a framebuffer it owns.
pub struct TextConsole {
    fb: FramebufferDevice,
    cursor_x: usize,
    cursor_y: usize,
    scale: usize,
    fg: u32,
    bg: u32,
}

impl View for TextConsole {
    type V = ConsoleView;

    closed spec fn view(&self) -> ConsoleView {
        ConsoleView {
            fb: self.fb@,
            cursor_x: self.cursor_x as int,
            cursor_y: self.cursor_y as int,
            scale: self.scale as int,
            fg: self.fg,
            bg: self.bg,
        }
    }
}

impl TextConsole {
    /// Every console that exists is well formed; obtained anywhere via
    /// `use_type_invariant`.
    #[verifier::type_invariant]
    pub open spec fn type_inv(self) -> bool {
        self@.wf()
    }

    /// Take ownership of a framebuffer and build a console over it with the
    /// given magnification, the cursor at the origin and a white-on-black pen.
    /// Construction is refused, with the exact reason, for a zero scale or a
    /// scaled cell that would not fit the frame.
    pub fn new(fb: FramebufferDevice, scale: usize) -> (r: Result<TextConsole, ConsoleError>)
        ensures
            (r is Err <==> (scale == 0 || 8 * scale > fb@.width || 8 * scale > fb@.height)),
            (r == Result::<TextConsole, ConsoleError>::Err(ConsoleError::ZeroScale) <==> scale
                == 0),
            (r == Result::<TextConsole, ConsoleError>::Err(ConsoleError::CellTooLarge) <==> (scale
                > 0 && (8 * scale > fb@.width || 8 * scale > fb@.height))),
            r matches Ok(c) ==> c@ == (ConsoleView {
                fb: fb@,
                cursor_x: 0,
                cursor_y: 0,
                scale: scale as int,
                fg: 0x00FF_FFFFu32,
                bg: 0u32,
            }),
    {
        proof {
            use_type_invariant(&fb);
        }
        if scale == 0 {
            return Err(ConsoleError::ZeroScale);
        }
        let w = fb.width();
        let h = fb.height();
        proof {
            lemma_fundamental_div_mod(w as int, 8);
            lemma_fundamental_div_mod(h as int, 8);
            lemma_mod_bound(w as int, 8);
            lemma_mod_bound(h as int, 8);
        }
        if scale > w / 8 || scale > h / 8 {
            return Err(ConsoleError::CellTooLarge);
        }
        Ok(
            TextConsole {
                fb,
                cursor_x: 0,
                cursor_y: 0,
                scale,
                fg: 0x00FF_FFFFu32,
                bg: 0u32,
            },
        )
    }

    /// The horizontal cursor position in pixels.
    pub fn cursor_x(&self) -> (r: usize)
        ensures
            r == self@.cursor_x,
    {
        self.cursor_x
    }

    /// The vertical cursor position in pixels.
    pub fn cursor_y(&self) -> (r: usize)
        ensures
            r == self@.cursor_y,
    {
        self.cursor_y
    }

    /// The magnification factor, fixed at construction.
    pub fn scale(&self) -> (r: usize)
        ensures
            r == self@.scale,
    {
        self.scale
    }

    /// A view of the framebuffer the console draws on.
    pub fn device(&self) -> (r: &FramebufferDevice)
        ensures
            r@ == self@.fb,
    {
        &self.fb
    }

    /// Set the pen: `fg` for set glyph bits, `bg` for clear ones. Takes effect
    /// on subsequent draws only.
    pub fn set_color(&mut self, fg: u32, bg: u32)
        ensures
            final(self)@ == (ConsoleView { fg, bg, ..old(self)@ }),
    {
        proof {
            use_type_invariant(&*self);
        }
        self.fg = fg;
        self.bg = bg;
    }

    /// Scroll the whole frame up by one text line (one scaled cell of raster
    /// rows): row `y` takes what row `y + cell` held, padding included, and
    /// the newly exposed bottom band is blanked to the background color. The
    /// cursor does not move.
    pub fn scroll_up(&mut self)
        ensures
            final(self)@ == (ConsoleView {
                fb: scrolled_cells(old(self)@.fb, old(self)@.cell_px(), old(self)@.bg),
                ..old(self)@
            }),
    {
        proof {
            use_type_invariant(&*self);
        }
        let ghost orig = self@.fb;
        let ghost target = scrolled_cells(orig, self@.cell_px(), self@.bg);
        let stride = self.fb.stride_pixels();
        let height = self.fb.height();
        let count = self.fb.cell_count();
        let cell = 8 * self.scale;
        let keep = height - cell;
        let bgc = self.bg;
        proof {
            assert((keep as int) * (stride as int) <= (height as int) * (stride as int) && (
            cell as int) * (stride as int) <= (height as int) * (stride as int) && ((keep as int) * (
            stride as int)) + ((cell as int) * (stride as int)) == (height as int) * (
            stride as int)) by (nonlinear_arith)
                requires
                    0 <= keep as int <= height as int,
                    0 <= cell as int <= height as int,
                    keep as int + cell as int == height as int,
                    0 < stride as int,
            ;
            assert((height as int) * (stride as int) == (stride as int) * (height as int))
                by (nonlinear_arith);
            assert(orig.cells.len() == (stride as int) * (height as int));
        }
        let limit = keep * stride;
        let band = cell * stride;
        let mut i: usize = 0;
        while i < limit
            invariant
                self@.wf(),
                self@.fb.width == orig.width,
                self@.fb.height == orig.height,
                self@.fb.stride == orig.stride,
                self@.fb.cells.len() == orig.cells.len(),
                self@.cursor_x == old(self)@.cursor_x,
                self@.cursor_y == old(self)@.cursor_y,
                self@.scale == old(self)@.scale,
                self@.fg == old(self)@.fg,
                self@.bg == old(self)@.bg,
                stride == orig.stride,
                limit as int == (orig.height - cell) * orig.stride,
                band as int == cell * orig.stride,
                limit as int + band as int == orig.cells.len(),
                count as int == orig.cells.len(),
                0 <= i <= limit,
                forall|j: int|
                    #![trigger self@.fb.cells[j]]
                    0 <= j < orig.cells.len() ==> self@.fb.cells[j] == if j < i {
                        orig.cells[j + band]
                    } else {
                        orig.cells[j]
                    },
            decreases limit - i,
        {
            let v = self.fb.read_cell_at(i + band);
            self.fb.write_cell_at(i, v);
            i = i + 1;
        }
        let mut j: usize = limit;
        let len = limit + band;
        while j < len
            invariant
                self@.wf(),
                self@.fb.width == orig.width,
                self@.fb.height == orig.height,
                self@.fb.stride == orig.stride,
                self@.fb.cells.len() == orig.cells.len(),
                self@.cursor_x == old(self)@.cursor_x,
                self@.cursor_y == old(self)@.cursor_y,
                self@.scale == old(self)@.scale,
                self@.fg == old(self)@.fg,
                self@.bg == old(self)@.bg,
                bgc == old(self)@.bg,
                limit as int == (orig.height - cell) * orig.stride,
                band as int == cell * orig.stride,
                len as int == orig.cells.len(),
                limit <= j <= len,
                forall|k: int|
                    #![trigger self@.fb.cells[k]]
                    0 <= k < orig.cells.len() ==> self@.fb.cells[k] == if k < limit {
                        orig.cells[k + band]
                    } else if k < j {
                        bgc
                    } else {
                        orig.cells[k]
                    },
            decreases len - j,
        {
            self.fb.write_cell_at(j, bgc);
            j = j + 1;
        }
        proof {
            assert(self@.fb.cells =~= target.cells);
            assert(self@ =~= (ConsoleView {
                fb: scrolled_cells(old(self)@.fb, old(self)@.cell_px(), old(self)@.bg),
                ..old(self)@
            }));
        }
    }

    /// Blit the glyph for `ch` at pixel position `(x, y)` with the console's
    /// magnification, set bits in `fg_color` and clear bits in `bg_color`,
    /// clipped to the visible frame. The cursor and the pen do not move.
    pub fn draw_char(&mut self, ch: char, x: usize, y: usize, fg_color: u32, bg_color: u32)
        ensures
            final(self)@ == (ConsoleView {
                fb: blit_cells(
                    old(self)@.fb,
                    glyph_seq(ch),
                    x as int,
                    y as int,
                    old(self)@.scale,
                    fg_color,
                    bg_color,
                ),
                ..old(self)@
            }),
    {
        proof {
            use_type_invariant(&*self);
        }
        let ghost orig = self@;
        let ghost target = blit_cells(
            orig.fb,
            glyph_seq(ch),
            x as int,
            y as int,
            orig.scale,
            fg_color,
            bg_color,
        );
        let g = ascii_to_matrix(ch);
        let w = self.fb.width();
        let h = self.fb.height();
        let stride = self.fb.stride_pixels();
        let count = self.fb.cell_count();
        let cell = 8 * self.scale;
        if x >= w || y >= h {
            proof {
                assert(target.cells =~= orig.fb.cells);
                assert(self@ =~= (ConsoleView { fb: target, ..orig }));
            }
            return;
        }
        proof {
            assert((cell as int) * (cell as int) <= count as int && x as int + cell as int
                <= count as int && y as int + cell as int <= count as int) by (nonlinear_arith)
                requires
                    count as int == (orig.fb.stride) * (orig.fb.height),
                    0 < cell as int <= orig.fb.width,
                    cell as int <= orig.fb.height,
                    orig.fb.width <= orig.fb.stride,
                    8 <= cell as int,
                    (x as int) < orig.fb.width,
                    (y as int) < orig.fb.height,
            ;
        }
        let end = cell * cell;
        let mut k: usize = 0;
        proof {
            assert(self@.fb.cells =~= blit_upto(
                orig.fb,
                g@,
                x as int,
                y as int,
                orig.scale,
                fg_color,
                bg_color,
                0,
            ).cells);
            assert(self@.fb =~= blit_upto(
                orig.fb,
                g@,
                x as int,
                y as int,
                orig.scale,
                fg_color,
                bg_color,
                0,
            ));
        }
        while k < end
            invariant
                self@.wf(),
                orig.wf(),
                self@.fb == blit_upto(
                    orig.fb,
                    g@,
                    x as int,
                    y as int,
                    orig.scale,
                    fg_color,
                    bg_color,
                    k as int,
                ),
                self@.cursor_x == orig.cursor_x,
                self@.cursor_y == orig.cursor_y,
                self@.scale == orig.scale,
                self@.fg == orig.fg,
                self@.bg == orig.bg,
                g@ == glyph_seq(ch),
                cell as int == 8 * orig.scale,
                end as int == (cell as int) * (cell as int),
                0 <= k <= end,
                (x as int) < orig.fb.width,
                (y as int) < orig.fb.height,
                x as int + cell as int <= usize::MAX,
                y as int + cell as int <= usize::MAX,
                cell as int <= orig.fb.width,
                cell as int <= orig.fb.height,
                stride as int == orig.fb.stride,
                count as int == orig.fb.cells.len(),
                w as int == orig.fb.width,
                h as int == orig.fb.height,
            decreases end - k,
        {
            proof {
                lemma_mod_bound(k as int, cell as int);
                lemma_div_pos_is_pos(k as int, cell as int);
                lemma_multiply_divide_lt(k as int, cell as int, cell as int);
            }
            let ox = k % cell;
            let oy = k / cell;
            proof {
                assert(8 * orig.scale == orig.scale * 8) by (nonlinear_arith);
                lemma_multiply_divide_lt(ox as int, orig.scale, 8);
                lemma_multiply_divide_lt(oy as int, orig.scale, 8);
                lemma_div_pos_is_pos(ox as int, orig.scale);
                lemma_div_pos_is_pos(oy as int, orig.scale);
            }
            let gx = ox / self.scale;
            let gy = oy / self.scale;
            let grow = g[gy];
            let on = ((grow >> (gx as u8)) & 1) == 1;
            let color = if on {
                fg_color
            } else {
                bg_color
            };
            let ghost before = self@.fb;
            let px = x + ox;
            let py = y + oy;
            proof {
                lemma_blit_upto_step(
                    orig.fb,
                    g@,
                    x as int,
                    y as int,
                    orig.scale,
                    fg_color,
                    bg_color,
                    k as int,
                );
            }
            if px < w && py < h {
                proof {
                    lemma_index_bijection(orig.fb.stride, orig.fb.height, px as int, py as int);
                }
                let idx = py * stride + px;
                self.fb.write_cell_at(idx, color);
                proof {
                    assert(self@.fb =~= before.put(px as int, py as int, color));
                }
            } else {
                proof {
                    assert(self@.fb =~= before.put(px as int, py as int, color));
                }
            }
            k = k + 1;
        }
        proof {
            lemma_blit_upto_full(
                orig.fb,
                g@,
                x as int,
                y as int,
                orig.scale,
                fg_color,
                bg_color,
            );
            assert(self@ =~= (ConsoleView { fb: target, ..orig }));
        }
    }

    /// Write one character at the cursor: `'\n'` and `'\r'` move the cursor,
    /// anything else wraps the cursor at the right edge if its cell would not
    /// fit, scrolls up exactly once if the cell would cross the bottom edge,
    /// blits the glyph (an unprintable character as the replacement glyph) and
    /// advances the cursor by one scaled cell.
    pub fn write_char(&mut self, ch: char)
        ensures
            final(self)@ == old(self)@.step_char(ch),
    {
        proof {
            use_type_invariant(&*self);
        }
        let ghost orig = self@;
        let w = self.fb.width();
        let h = self.fb.height();
        let count = self.fb.cell_count();
        let cell = 8 * self.scale;
        proof {
            // The cursor and one cell both fit the frame, so their sum fits
            // comfortably inside the cell count and cannot overflow.
            assert(8 * (h as int) <= count as int && 8 * (w as int) <= count as int)
                by (nonlinear_arith)
                requires
                    count as int == orig.fb.stride * orig.fb.height,
                    h as int == orig.fb.height,
                    (w as int) <= orig.fb.stride,
                    orig.fb.stride >= 8,
                    orig.fb.height >= 8,
            ;
        }
        if ch == '\n' {
            self.cursor_x = 0;
            let ny = self.cursor_y + cell;
            self.cursor_y = if ny > h {
                h
            } else {
                ny
            };
            proof {
                assert(self@ =~= orig.step_newline());
            }
        } else if ch == '\r' {
            self.cursor_x = 0;
            proof {
                assert(self@ =~= orig.step_return());
            }
        } else {
            let wrap = self.cursor_x + cell > w;
            let nx: usize = if wrap {
                0
            } else {
                self.cursor_x
            };
            let wy: usize = if wrap {
                self.cursor_y + cell
            } else {
                self.cursor_y
            };
            let scroll = wy + cell > h;
            let ny: usize = if scroll {
                self.scroll_up();
                h - cell
            } else {
                wy
            };
            let ghost mid = self@;
            let c32 = ch as u32;
            let pch: char = if 0x20 <= c32 && c32 <= 0x7e {
                ch
            } else {
                '?'
            };
            let fgc = self.fg;
            let bgc = self.bg;
            proof {
                assert(glyph_seq(pch) == display_glyph(ch));
            }
            self.draw_char(pch, nx, ny, fgc, bgc);
            self.cursor_x = nx + cell;
            self.cursor_y = ny;
            proof {
                assert(self@ =~= orig.step_print(ch));
            }
        }
    }

    /// Write a whole string, character by character, through
    /// [`TextConsole::write_char`].
    pub fn draw_string(&mut self, s: &str)
        ensures
            final(self)@ == old(self)@.step_string(s@),
    {
        proof {
            use_type_invariant(&*self);
        }
        let ghost orig = self@;
        for c in it: s.chars()
            invariant
                self@ == orig.step_string(it.seq().take(it.index() as int)),
                it.seq() == s@,
        {
            proof {
                assert(it.seq().take(it.index() + 1) =~= it.seq().take(it.index()).push(
                    it.seq()[it.index()],
                ));
                lemma_step_string_snoc(orig, it.seq().take(it.index()), c);
            }
            self.write_char(c);
        }
        proof {
            assert(s@.take(s@.len() as int) =~= s@);
        }
    }
}

} // verus!
