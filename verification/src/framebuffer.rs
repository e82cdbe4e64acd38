//! The framebuffer device: a single owner of a linear pixel buffer with
//! bounds-checked writes.
//!
//! The buffer stores packed `0xAARRGGBB` pixels, `stride` of them per row
//! (`stride >= width`; the cells beyond `width` are row padding). Every write
//! goes through [`FramebufferDevice::draw_pixel`], which silently drops
//! out-of-frame coordinates instead of failing: the display pipeline never
//! halts on a careless caller.

use vstd::prelude::*;
use vstd::arithmetic::div_mod::lemma_fundamental_div_mod_converse;

verus! {

/// Why a framebuffer construction was refused.
#[derive(Clone, Copy, Debug, PartialEq, Eq, Structural)]
pub enum FbError {
    /// `width` or `height` was zero.
    ZeroDimension,
    /// The stride in bytes was not a multiple of the 4-byte pixel size.
    MisalignedStride,
    /// The stride holds fewer pixels than one visible row needs.
    StrideTooSmall,
    /// The whole buffer would not be addressable (`stride * height` cells
    /// overflow a `usize`).
    TooLarge,
}

/// The mathematical model of a framebuffer: its geometry and the sequence of
/// cells, row-major, `stride` cells per row.
#[verifier::ext_equal]
pub ghost struct FbView {
    pub cells: Seq<u32>,
    pub width: int,
    pub height: int,
    pub stride: int,
}

impl FbView {
    /// A well-formed framebuffer: positive visible dimensions, rows at least
    /// as long as the visible width, and exactly `stride * height` cells.
    pub open spec fn wf(self) -> bool {
        &&& 0 < self.width <= self.stride
        &&& 0 < self.height
        &&& self.cells.len() == self.stride * self.height
    }

    /// Whether `(x, y)` lies in the visible frame.
    pub open spec fn in_frame(self, x: int, y: int) -> bool {
        0 <= x < self.width && 0 <= y < self.height
    }

    /// The cell at column `x` (which may lie in the padding, `x < stride`)
    /// of row `y`.
    pub open spec fn cell(self, x: int, y: int) -> u32 {
        self.cells[y * self.stride + x]
    }

    /// The buffer after one bounds-checked pixel write: the cell at `(x, y)`
    /// becomes `color` if `(x, y)` is in the visible frame, and nothing at
    /// all changes otherwise.
    pub open spec fn put(self, x: int, y: int, color: u32) -> FbView {
        if self.in_frame(x, y) {
            FbView { cells: self.cells.update(y * self.stride + x, color), ..self }
        } else {
            self
        }
    }
}

/// Row-major addressing is a bijection: for a column `x < stride` and a row
/// `y < height`, the flat index `y * stride + x` is in range and decomposes
/// back into `x` and `y`.
pub proof fn lemma_index_bijection(stride: int, height: int, x: int, y: int)
    requires
        0 < stride,
        0 <= x < stride,
        0 <= y < height,
    ensures
        0 <= y * stride + x < stride * height,
        (y * stride + x) % stride == x,
        (y * stride + x) / stride == y,
{
    assert(0 <= y * stride + x < stride * height) by (nonlinear_arith)
        requires
            0 < stride,
            0 <= x < stride,
            0 <= y < height,
    ;
    lemma_fundamental_div_mod_converse(y * stride + x, stride, y, x);
}

/// How a single `put` reads back cell by cell: only the written cell changes,
/// and only when the write was in frame.
pub proof fn lemma_cell_put(v: FbView, x: int, y: int, color: u32, px: int, py: int)
    requires
        v.wf(),
        0 <= px < v.stride,
        0 <= py < v.height,
    ensures
        v.put(x, y, color).cell(px, py) == if px == x && py == y && v.in_frame(x, y) {
            color
        } else {
            v.cell(px, py)
        },
        v.put(x, y, color).wf(),
        v.put(x, y, color).width == v.width,
        v.put(x, y, color).height == v.height,
        v.put(x, y, color).stride == v.stride,
{
    lemma_index_bijection(v.stride, v.height, px, py);
    if v.in_frame(x, y) {
        lemma_index_bijection(v.stride, v.height, x, y);
        if py * v.stride + px == y * v.stride + x {
            assert(px == (y * v.stride + x) % v.stride);
            assert(py == (y * v.stride + x) / v.stride);
            lemma_index_bijection(v.stride, v.height, x, y);
            assert(px == x && py == y);
        }
    }
}

/// A framebuffer device: the exclusive owner of its pixel buffer.
///
/// The raw device memory of a real display is represented here by an owned
/// buffer of cells; the construction boundary hands the device its geometry,
/// and everything the device does is a bounds-checked write into that buffer.
pub struct FramebufferDevice {
    buf: Vec<u32>,
    width: usize,
    height: usize,
    stride: usize,
}

impl View for FramebufferDevice {
    type V = FbView;

    closed spec fn view(&self) -> FbView {
        FbView {
            cells: self.buf@,
            width: self.width as int,
            height: self.height as int,
            stride: self.stride as int,
        }
    }
}

impl FramebufferDevice {
    /// Every device that exists is well formed; obtained anywhere via
    /// `use_type_invariant`.
    #[verifier::type_invariant]
    pub open spec fn type_inv(self) -> bool {
        self@.wf()
    }

    /// Construct a device with the given visible geometry and row stride in
    /// bytes, with every cell initially zero (black). Construction is refused,
    /// with the exact reason, if a dimension is zero, the stride is not a
    /// whole number of 4-byte pixels, the stride is shorter than a visible
    /// row, or the buffer would not be addressable.
    pub fn new(width: usize, height: usize, stride_bytes: usize) -> (r: Result<
        FramebufferDevice,
        FbError,
    >)
        ensures
            (r is Err <==> (width == 0 || height == 0 || stride_bytes % 4 != 0 || stride_bytes / 4
                < width || (stride_bytes / 4) * height > usize::MAX)),
            (r == Result::<FramebufferDevice, FbError>::Err(FbError::ZeroDimension) <==> (width
                == 0 || height == 0)),
            (r == Result::<FramebufferDevice, FbError>::Err(FbError::MisalignedStride) <==> (width
                > 0 && height > 0 && stride_bytes % 4 != 0)),
            (r == Result::<FramebufferDevice, FbError>::Err(FbError::StrideTooSmall) <==> (width
                > 0 && height > 0 && stride_bytes % 4 == 0 && stride_bytes / 4 < width)),
            (r == Result::<FramebufferDevice, FbError>::Err(FbError::TooLarge) <==> (width > 0
                && height > 0 && stride_bytes % 4 == 0 && stride_bytes / 4 >= width && (stride_bytes
                / 4) * height > usize::MAX)),
            r matches Ok(fb) ==> {
                &&& fb@.wf()
                &&& fb@.width == width
                &&& fb@.height == height
                &&& fb@.stride == stride_bytes / 4
                &&& forall|i: int| 0 <= i < fb@.cells.len() ==> fb@.cells[i] == 0u32
            },
    {
        if width == 0 || height == 0 {
            return Err(FbError::ZeroDimension);
        }
        if stride_bytes % 4 != 0 {
            return Err(FbError::MisalignedStride);
        }
        let stride = stride_bytes / 4;
        if stride < width {
            return Err(FbError::StrideTooSmall);
        }
        let len = match stride.checked_mul(height) {
            Some(n) => n,
            None => {
                return Err(FbError::TooLarge);
            },
        };
        let mut buf: Vec<u32> = Vec::new();
        let mut i: usize = 0;
        while i < len
            invariant
                i <= len,
                buf@.len() == i,
                forall|j: int| 0 <= j < i ==> buf@[j] == 0u32,
            decreases len - i,
        {
            buf.push(0u32);
            i = i + 1;
        }
        Ok(FramebufferDevice { buf, width, height, stride })
    }

    /// The visible width in pixels.
    pub fn width(&self) -> (r: usize)
        ensures
            r == self@.width,
    {
        self.width
    }

    /// The visible height in pixels.
    pub fn height(&self) -> (r: usize)
        ensures
            r == self@.height,
    {
        self.height
    }

    /// The number of cells stored per row (at least `width`).
    pub fn stride_pixels(&self) -> (r: usize)
        ensures
            r == self@.stride,
    {
        self.stride
    }

    /// Write one pixel, bounds-checked: out-of-frame coordinates are silently
    /// dropped and leave the whole buffer untouched.
    pub fn draw_pixel(&mut self, x: usize, y: usize, color: u32)
        ensures
            final(self)@ == old(self)@.put(x as int, y as int, color),
    {
        proof {
            use_type_invariant(&*self);
        }
        if x < self.width && y < self.height {
            // Binds the buffer length so the index arithmetic is known to fit.
            let _count = self.buf.len();
            proof {
                lemma_index_bijection(
                    self@.stride,
                    self@.height,
                    x as int,
                    y as int,
                );
            }
            let idx = y * self.stride + x;
            self.buf[idx] = color;
        }
    }

    /// Fill the rectangle of `w * h` pixels whose top-left corner is `(x, y)`,
    /// clipped to the visible frame: every in-frame cell of the rectangle
    /// takes `color`, and every other cell, the padding included, is
    /// untouched.
    pub fn fill_rect(&mut self, x: usize, y: usize, w: usize, h: usize, color: u32)
        ensures
            final(self)@.width == old(self)@.width,
            final(self)@.height == old(self)@.height,
            final(self)@.stride == old(self)@.stride,
            final(self)@.cells.len() == old(self)@.cells.len(),
            forall|px: int, py: int|
                0 <= px < old(self)@.stride && 0 <= py < old(self)@.height ==> final(self)@.cell(
                    px,
                    py,
                ) == if old(self)@.in_frame(px, py) && x <= px < x + w && y <= py < y + h {
                    color
                } else {
                    old(self)@.cell(px, py)
                },
    {
        proof {
            use_type_invariant(&*self);
        }
        let ghost orig = self@;
        // Clip the rectangle to the visible frame up front.
        let xe: usize = if x >= self.width {
            x
        } else if w > self.width - x {
            self.width
        } else {
            x + w
        };
        let ye: usize = if y >= self.height {
            y
        } else if h > self.height - y {
            self.height
        } else {
            y + h
        };
        let mut py: usize = y;
        while py < ye
            invariant
                self@.wf(),
                self@.width == orig.width,
                self@.height == orig.height,
                self@.stride == orig.stride,
                self@.cells.len() == orig.cells.len(),
                y <= py <= ye || py == y,
                xe <= orig.width || xe == x,
                ye <= orig.height || ye == y,
                forall|cx: int, cy: int|
                    #![trigger self@.cell(cx, cy)]
                    0 <= cx < orig.stride && 0 <= cy < orig.height ==> self@.cell(cx, cy)
                        == if orig.in_frame(cx, cy) && x <= cx < xe && y <= cy < py {
                        color
                    } else {
                        orig.cell(cx, cy)
                    },
            decreases ye - py,
        {
            let mut px: usize = x;
            while px < xe
                invariant
                    self@.wf(),
                    self@.width == orig.width,
                    self@.height == orig.height,
                    self@.stride == orig.stride,
                    self@.cells.len() == orig.cells.len(),
                    x <= px <= xe || px == x,
                    y <= py < ye,
                    x < xe ==> xe <= orig.width,
                    y < ye ==> ye <= orig.height,
                    forall|cx: int, cy: int|
                        #![trigger self@.cell(cx, cy)]
                        0 <= cx < orig.stride && 0 <= cy < orig.height ==> self@.cell(cx, cy)
                            == if orig.in_frame(cx, cy) && x <= cx < xe && (y <= cy < py || (cy
                        == py && x <= cx < px)) {
                            color
                        } else {
                            orig.cell(cx, cy)
                        },
                decreases xe - px,
            {
                let ghost before = self@;
                self.draw_pixel(px, py, color);
                proof {
                    lemma_index_bijection(before.stride, before.height, px as int, py as int);
                    assert(self@.cells.len() == before.cells.len());
                    assert(self@.wf());
                    assert forall|cx: int, cy: int|
                        0 <= cx < orig.stride && 0 <= cy < orig.height implies #[trigger] self@.cell(cx, cy)
                        == if orig.in_frame(cx, cy) && x <= cx < xe && (y <= cy < py || (cy == py
                        && x <= cx < px + 1)) {
                        color
                    } else {
                        orig.cell(cx, cy)
                    } by {
                        lemma_cell_put(before, px as int, py as int, color, cx, cy);
                    }
                }
                px = px + 1;
            }
            py = py + 1;
        }
        proof {
            assert forall|cx: int, cy: int|
                0 <= cx < orig.stride && 0 <= cy < orig.height implies #[trigger] final(self)@.cell(cx, cy)
                == if orig.in_frame(cx, cy) && x <= cx < x + w && y <= cy < y + h {
                color
            } else {
                orig.cell(cx, cy)
            } by {
                assert(self@.cell(cx, cy) == if orig.in_frame(cx, cy) && x <= cx < xe && y <= cy
                    < ye {
                    color
                } else {
                    orig.cell(cx, cy)
                });
            }
        }
    }

    /// Clear the whole visible frame to `color`; the padding cells beyond
    /// `width` are untouched.
    pub fn clear(&mut self, color: u32)
        ensures
            final(self)@.width == old(self)@.width,
            final(self)@.height == old(self)@.height,
            final(self)@.stride == old(self)@.stride,
            final(self)@.cells.len() == old(self)@.cells.len(),
            forall|px: int, py: int|
                0 <= px < old(self)@.stride && 0 <= py < old(self)@.height ==> final(self)@.cell(
                    px,
                    py,
                ) == if old(self)@.in_frame(px, py) {
                    color
                } else {
                    old(self)@.cell(px, py)
                },
    {
        proof {
            use_type_invariant(&*self);
        }
        let w = self.width;
        let h = self.height;
        self.fill_rect(0, 0, w, h, color);
    }

    /// The total number of stored cells, `stride * height`.
    pub fn cell_count(&self) -> (r: usize)
        ensures
            r == self@.cells.len(),
    {
        self.buf.len()
    }

    /// Read the cell at flat index `i` of the row-major buffer.
    pub(crate) fn read_cell_at(&self, i: usize) -> (r: u32)
        requires
            i < self@.cells.len(),
        ensures
            r == self@.cells[i as int],
    {
        self.buf[i]
    }

    /// Write the cell at flat index `i` of the row-major buffer; used by the
    /// console's scroll, which moves whole raster rows, padding included.
    pub(crate) fn write_cell_at(&mut self, i: usize, v: u32)
        requires
            i < old(self)@.cells.len(),
        ensures
            final(self)@ == (FbView { cells: old(self)@.cells.update(i as int, v), ..old(self)@ }),
        no_unwind
    {
        proof {
            use_type_invariant(&*self);
        }
        self.buf[i] = v;
    }

    /// Read one stored cell, the row padding included: `Some` exactly for
    /// `x < stride` and `y < height`.
    pub fn read_cell(&self, x: usize, y: usize) -> (r: Option<u32>)
        ensures
            r is Some <==> (x < self@.stride && y < self@.height),
            x < self@.stride && y < self@.height ==> r == Some(self@.cell(x as int, y as int)),
    {
        proof {
            use_type_invariant(&*self);
        }
        if x < self.stride && y < self.height {
            // Binds the buffer length so the index arithmetic is known to fit.
            let _count = self.buf.len();
            proof {
                lemma_index_bijection(self@.stride, self@.height, x as int, y as int);
            }
            Some(self.buf[y * self.stride + x])
        } else {
            None
        }
    }
}

} // verus!
