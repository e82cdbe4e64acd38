//! Vector primitives drawn pixel by pixel through the framebuffer's
//! bounds-checked [`FramebufferDevice::draw_pixel`]: Bresenham lines, midpoint
//! circles (stroked and filled) and triangles. Every plotted point outside the
//! visible frame, a negative intermediate coordinate included, is silently
//! dropped.

use vstd::prelude::*;
use crate::framebuffer::{FbView, FramebufferDevice, lemma_cell_put};

verus! {

/// The largest coordinate the plotters accept; it keeps all of the integer
/// error-term arithmetic inside `i64`.
pub const MAX_COORD: usize = 0x3FFF_FFFF;

/// The sign of `v`: `-1`, `0` or `1`.
pub open spec fn sign_of(v: int) -> int {
    if v < 0 {
        -1
    } else if v > 0 {
        1
    } else {
        0
    }
}

/// One step of the Bresenham error accumulator: from the point `(x, y)` with
/// error `err`, step `x` by `sx` when `2 err >= dy` and `y` by `sy` when
/// `2 err <= dx` (both may fire: a diagonal step), adding `dy` and `dx` to the
/// error respectively.
pub open spec fn bres_step(x: int, y: int, err: int, sx: int, sy: int, dx: int, dy: int) -> (
    int,
    int,
    int,
) {
    let e2 = 2 * err;
    (
        if e2 >= dy {
            x + sx
        } else {
            x
        },
        if e2 <= dx {
            y + sy
        } else {
            y
        },
        err + (if e2 >= dy {
            dy
        } else {
            0
        }) + (if e2 <= dx {
            dx
        } else {
            0
        }),
    )
}

/// The points the Bresenham walk visits from `(x, y)` with error `err` until
/// it reaches `(x1, y1)`, the endpoint included; `fuel` bounds the walk (one
/// step toward the endpoint consumes at least one unit, so
/// `|x1 - x0| + |y1 - y0|` suffices from the start).
pub open spec fn bres_points(
    fuel: nat,
    x: int,
    y: int,
    err: int,
    x1: int,
    y1: int,
    sx: int,
    sy: int,
    dx: int,
    dy: int,
) -> Seq<(int, int)>
    decreases fuel,
{
    if (x == x1 && y == y1) || fuel == 0 {
        seq![(x, y)]
    } else {
        let next = bres_step(x, y, err, sx, sy, dx, dy);
        seq![(x, y)] + bres_points((fuel - 1) as nat, next.0, next.1, next.2, x1, y1, sx, sy, dx, dy)
    }
}

/// The exact set of points of the line from `(x0, y0)` to `(x1, y1)`, as the
/// integer Bresenham algorithm visits them: `dx = |x1 - x0|`, `dy = -|y1 - y0|`,
/// error accumulator starting at `dx + dy`.
pub open spec fn line_points(x0: int, y0: int, x1: int, y1: int) -> Seq<(int, int)> {
    let dx = vstd::math::abs(x1 - x0) as int;
    let dy = -(vstd::math::abs(y1 - y0) as int);
    bres_points(
        (dx - dy) as nat,
        x0,
        y0,
        dx + dy,
        x1,
        y1,
        sign_of(x1 - x0),
        sign_of(y1 - y0),
        dx,
        dy,
    )
}

/// `now` is `orig` with exactly the in-frame points of `pts` painted `color`:
/// the geometry is unchanged and every cell, padding included, reads back
/// either `color` (an in-frame point of `pts`) or its old value.
pub open spec fn painted(now: FbView, orig: FbView, pts: Seq<(int, int)>, color: u32) -> bool {
    &&& now.width == orig.width
    &&& now.height == orig.height
    &&& now.stride == orig.stride
    &&& now.cells.len() == orig.cells.len()
    &&& forall|cx: int, cy: int|
        0 <= cx < orig.stride && 0 <= cy < orig.height ==> now.cell(cx, cy) == if orig.in_frame(
            cx,
            cy,
        ) && pts.contains((cx, cy)) {
            color
        } else {
            orig.cell(cx, cy)
        }
}

/// `now` is `orig` with exactly the in-frame points of the set `pts` painted
/// `color`, the other cells untouched.
pub open spec fn painted_set(now: FbView, orig: FbView, pts: Set<(int, int)>, color: u32) -> bool {
    &&& now.width == orig.width
    &&& now.height == orig.height
    &&& now.stride == orig.stride
    &&& now.cells.len() == orig.cells.len()
    &&& forall|cx: int, cy: int|
        0 <= cx < orig.stride && 0 <= cy < orig.height ==> now.cell(cx, cy) == if orig.in_frame(
            cx,
            cy,
        ) && pts.contains((cx, cy)) {
            color
        } else {
            orig.cell(cx, cy)
        }
}

/// The eight mirror images of the octant offset `(x, y)` around `(cx, cy)`.
pub open spec fn octet(cx: int, cy: int, x: int, y: int) -> Set<(int, int)> {
    set![
        (cx + x, cy + y),
        (cx - x, cy + y),
        (cx + x, cy - y),
        (cx - x, cy - y),
        (cx + y, cy + x),
        (cx - y, cy + x),
        (cx + y, cy - x),
        (cx - y, cy - x),
    ]
}

/// The points the midpoint circle walk plots from octant state `(x, y)` with
/// decision variable `err` (which tracks `x^2 + y^2 - r^2` exactly): eight
/// mirrored points per step, `y` stepping every iteration and `x` stepping
/// inward when the decision variable reaches `x`, until `x < y`.
pub open spec fn circle_rec(cx: int, cy: int, x: int, y: int, err: int) -> Set<(int, int)>
    decreases x - y + 2,
{
    if x < y {
        Set::empty()
    } else {
        let e1 = err + 2 * y + 1;
        let ny = y + 1;
        if e1 >= x {
            octet(cx, cy, x, y).union(circle_rec(cx, cy, x - 1, ny, e1 + 1 - 2 * x))
        } else {
            octet(cx, cy, x, y).union(circle_rec(cx, cy, x, ny, e1))
        }
    }
}

/// The exact point set of the stroked circle of radius `r` around `(cx, cy)`:
/// the midpoint walk starting at offset `(r, 0)` with decision variable `0`.
pub open spec fn circle_points(cx: int, cy: int, r: int) -> Set<(int, int)> {
    circle_rec(cx, cy, r, 0, 0)
}

/// Whether `(px, py)` lies in the closed disk of radius `r` around `(cx, cy)`.
pub open spec fn in_disk(cx: int, cy: int, r: int, px: int, py: int) -> bool {
    (px - cx) * (px - cx) + (py - cy) * (py - cy) <= r * r
}

/// Membership in a pushed sequence: the old members plus the new point.
proof fn lemma_contains_push(s: Seq<(int, int)>, p: (int, int), q: (int, int))
    ensures
        s.push(p).contains(q) <==> (s.contains(q) || q == p),
{
    if s.contains(q) {
        let i = choose|i: int| 0 <= i < s.len() && s[i] == q;
        assert(s.push(p)[i] == q);
    }
    if q == p {
        assert(s.push(p)[s.len() as int] == q);
    }
    if s.push(p).contains(q) {
        let i = choose|i: int| 0 <= i < s.push(p).len() && s.push(p)[i] == q;
        if i < s.len() {
            assert(s[i] == q);
        }
    }
}

/// Membership in a concatenation: a member of either part.
proof fn lemma_contains_concat(a: Seq<(int, int)>, b: Seq<(int, int)>, q: (int, int))
    ensures
        (a + b).contains(q) <==> (a.contains(q) || b.contains(q)),
{
    if a.contains(q) {
        let i = choose|i: int| 0 <= i < a.len() && a[i] == q;
        assert((a + b)[i] == q);
    }
    if b.contains(q) {
        let i = choose|i: int| 0 <= i < b.len() && b[i] == q;
        assert((a + b)[a.len() + i] == q);
    }
    if (a + b).contains(q) {
        let i = choose|i: int| 0 <= i < (a + b).len() && (a + b)[i] == q;
        if i < a.len() {
            assert(a[i] == q);
        } else {
            assert(b[i - a.len()] == q);
        }
    }
}

/// When the walk has reached the target column (`u == 0`) but not the target
/// row, the `x` step does not fire: the error term sits strictly below `dy`.
proof fn lemma_no_step_past_x(dx: int, dy0: int, v: int, err: int)
    requires
        dx >= 0,
        dy0 >= 0,
        1 <= v <= dy0,
        err == (dx + 1) * (-dy0) + (dy0 - v + 1) * dx,
    ensures
        2 * err < -dy0,
{
    assert(2 * err < -dy0) by (nonlinear_arith)
        requires
            dx >= 0,
            dy0 >= 0,
            1 <= v <= dy0,
            err == (dx + 1) * (-dy0) + (dy0 - v + 1) * dx,
    ;
}

/// When the walk has reached the target row (`v == 0`) but not the target
/// column, the `y` step does not fire: the error term sits strictly above `dx`.
proof fn lemma_no_step_past_y(dx: int, dy0: int, u: int, err: int)
    requires
        dx >= 0,
        dy0 >= 0,
        1 <= u <= dx,
        err == (dx - u + 1) * (-dy0) + (dy0 + 1) * dx,
    ensures
        2 * err > dx,
{
    assert(2 * err > dx) by (nonlinear_arith)
        requires
            dx >= 0,
            dy0 >= 0,
            1 <= u <= dx,
            err == (dx - u + 1) * (-dy0) + (dy0 + 1) * dx,
    ;
}

/// The error term of a walk within its window is bounded well inside `i64`.
proof fn lemma_err_window(dx: int, dy0: int, u: int, v: int, err: int)
    requires
        0 <= u <= dx <= 0x4000_0000,
        0 <= v <= dy0 <= 0x4000_0000,
        err == (dx - u + 1) * (-dy0) + (dy0 - v + 1) * dx,
    ensures
        -0x2000_0000_0000_0000 <= err <= 0x2000_0000_0000_0000,
{
    assert(-0x2000_0000_0000_0000 <= err <= 0x2000_0000_0000_0000) by (nonlinear_arith)
        requires
            0 <= u <= dx <= 0x4000_0000,
            0 <= v <= dy0 <= 0x4000_0000,
            err == (dx - u + 1) * (-dy0) + (dy0 - v + 1) * dx,
    ;
}

/// Plot one point given in signed coordinates: a negative coordinate is
/// discarded (treated as out of frame), anything else goes through the
/// bounds-checked pixel write.
fn plot_signed(fb: &mut FramebufferDevice, x: i64, y: i64, color: u32)
    requires
        x < 0x8000_0000,
        y < 0x8000_0000,
    ensures
        final(fb)@ == old(fb)@.put(x as int, y as int, color),
        final(fb)@.wf(),
        final(fb)@.width == old(fb)@.width,
        final(fb)@.height == old(fb)@.height,
        final(fb)@.stride == old(fb)@.stride,
        final(fb)@.cells.len() == old(fb)@.cells.len(),
{
    proof {
        use_type_invariant(&*fb);
    }
    let ghost before = fb@;
    if x >= 0 && y >= 0 {
        fb.draw_pixel(x as usize, y as usize, color);
    }
    proof {
        lemma_cell_put(before, x as int, y as int, color, 0, 0);
    }
}

/// Draw the line from `(x0, y0)` to `(x1, y1)` with the integer Bresenham
/// algorithm: exactly the in-frame points of [`line_points`] take `color`,
/// the endpoint included, and every other cell is untouched.
pub fn draw_line(
    fb: &mut FramebufferDevice,
    x0: usize,
    y0: usize,
    x1: usize,
    y1: usize,
    color: u32,
)
    requires
        x0 <= MAX_COORD,
        y0 <= MAX_COORD,
        x1 <= MAX_COORD,
        y1 <= MAX_COORD,
    ensures
        painted(final(fb)@, old(fb)@, line_points(x0 as int, y0 as int, x1 as int, y1 as int), color),
{
    proof {
        use_type_invariant(&*fb);
    }
    let ghost orig = fb@;
    let xt: i64 = x1 as i64;
    let yt: i64 = y1 as i64;
    let dx: i64 = if x1 >= x0 {
        (x1 - x0) as i64
    } else {
        (x0 - x1) as i64
    };
    let dy0: i64 = if y1 >= y0 {
        (y1 - y0) as i64
    } else {
        (y0 - y1) as i64
    };
    let dy: i64 = -dy0;
    let sx: i64 = if x0 < x1 {
        1
    } else if x0 > x1 {
        -1
    } else {
        0
    };
    let sy: i64 = if y0 < y1 {
        1
    } else if y0 > y1 {
        -1
    } else {
        0
    };
    let mut x: i64 = x0 as i64;
    let mut y: i64 = y0 as i64;
    let mut err: i64 = dx + dy;
    let ghost mut u: int = dx as int;
    let ghost mut v: int = dy0 as int;
    let ghost mut fuel: nat = (dx - dy) as nat;
    let ghost mut done: Seq<(int, int)> = Seq::empty();
    let ghost target = line_points(x0 as int, y0 as int, x1 as int, y1 as int);
    proof {
        assert(err as int == (dx as int - u + 1) * (dy as int) + (dy0 as int - v + 1) * (
        dx as int)) by (nonlinear_arith)
            requires
                u == dx as int,
                v == dy0 as int,
                dy as int == -(dy0 as int),
                err as int == dx as int + dy as int,
        ;
        assert(x as int == xt as int - sx as int * u) by {
            if x0 < x1 {
                assert(sx as int * u == u) by (nonlinear_arith)
                    requires
                        sx as int == 1,
                ;
            } else if x0 > x1 {
                assert(sx as int * u == -u) by (nonlinear_arith)
                    requires
                        sx as int == -1,
                ;
            } else {
                assert(sx as int * u == 0) by (nonlinear_arith)
                    requires
                        sx as int == 0,
                ;
            }
        };
        assert(y as int == yt as int - sy as int * v) by {
            if y0 < y1 {
                assert(sy as int * v == v) by (nonlinear_arith)
                    requires
                        sy as int == 1,
                ;
            } else if y0 > y1 {
                assert(sy as int * v == -v) by (nonlinear_arith)
                    requires
                        sy as int == -1,
                ;
            } else {
                assert(sy as int * v == 0) by (nonlinear_arith)
                    requires
                        sy as int == 0,
                ;
            }
        };
    }
    while !(x == xt && y == yt)
        invariant
            fb@.wf(),
            painted(fb@, orig, done, color),
            orig.wf(),
            dx == vstd::math::abs(xt as int - x0 as int),
            dy0 == vstd::math::abs(yt as int - y0 as int),
            dy == -dy0,
            sx == sign_of(xt as int - x0 as int),
            sy == sign_of(yt as int - y0 as int),
            xt == x1 as int,
            yt == y1 as int,
            0 <= xt <= MAX_COORD,
            0 <= yt <= MAX_COORD,
            0 <= dx <= MAX_COORD,
            0 <= dy0 <= MAX_COORD,
            0 <= u <= dx as int,
            0 <= v <= dy0 as int,
            x as int == xt as int - sx as int * u,
            y as int == yt as int - sy as int * v,
            err as int == (dx as int - u + 1) * (dy as int) + (dy0 as int - v + 1) * (dx as int),
            u + v <= fuel,
            target == done + bres_points(
                fuel,
                x as int,
                y as int,
                err as int,
                xt as int,
                yt as int,
                sx as int,
                sy as int,
                dx as int,
                dy as int,
            ),
        decreases u + v,
    {
        proof {
            // The walk is strictly inside its window, so neither step may
            // overshoot and the error arithmetic stays inside `i64`.
            lemma_err_window(dx as int, dy0 as int, u, v, err as int);
            if u == 0 && v > 0 {
                lemma_no_step_past_x(dx as int, dy0 as int, v, err as int);
            }
            if v == 0 && u > 0 {
                lemma_no_step_past_y(dx as int, dy0 as int, u, err as int);
            }
            assert(u + v > 0) by {
                if u == 0 && v == 0 {
                    assert(x == xt && y == yt);
                }
            };
        }
        let ghost before = fb@;
        plot_signed(fb, x, y, color);
        proof {
            let ghost done2 = done.push((x as int, y as int));
            assert forall|cx: int, cy: int|
                0 <= cx < orig.stride && 0 <= cy < orig.height implies #[trigger] fb@.cell(cx, cy)
                == if orig.in_frame(cx, cy) && done2.contains((cx, cy)) {
                color
            } else {
                orig.cell(cx, cy)
            } by {
                lemma_cell_put(before, x as int, y as int, color, cx, cy);
                lemma_contains_push(done, (x as int, y as int), (cx, cy));
            }
            assert(done2 =~= done + seq![(x as int, y as int)]);
            done = done2;
        }
        let e2: i64 = 2 * err;
        let ghost old_state = (x as int, y as int, err as int, fuel, u, v);
        if e2 >= dy {
            err = err + dy;
            x = x + sx;
            proof {
                u = u - 1;
            }
        }
        if e2 <= dx {
            err = err + dx;
            y = y + sy;
            proof {
                v = v - 1;
            }
        }
        proof {
            assert(fuel > 0) by {
                assert(old_state.4 + old_state.5 > 0);
            };
            let stepped = bres_step(
                old_state.0,
                old_state.1,
                old_state.2,
                sx as int,
                sy as int,
                dx as int,
                dy as int,
            );
            assert(stepped == (x as int, y as int, err as int));
            assert(bres_points(
                fuel,
                old_state.0,
                old_state.1,
                old_state.2,
                xt as int,
                yt as int,
                sx as int,
                sy as int,
                dx as int,
                dy as int,
            ) == seq![(old_state.0, old_state.1)] + bres_points(
                (fuel - 1) as nat,
                x as int,
                y as int,
                err as int,
                xt as int,
                yt as int,
                sx as int,
                sy as int,
                dx as int,
                dy as int,
            ));
            fuel = (fuel - 1) as nat;
            assert(target =~= done + bres_points(
                fuel,
                x as int,
                y as int,
                err as int,
                xt as int,
                yt as int,
                sx as int,
                sy as int,
                dx as int,
                dy as int,
            ));
            // The error identity is linear in `u` and `v` once the products
            // are expanded.
            assert(err as int == (dx as int - u + 1) * (dy as int) + (dy0 as int - v + 1) * (
            dx as int)) by (nonlinear_arith)
                requires
                    dy as int == -(dy0 as int),
                    old_state.2 == (dx as int - old_state.4 + 1) * (dy as int) + (dy0 as int
                        - old_state.5 + 1) * (dx as int),
                    (u == old_state.4 - 1 && err as int == old_state.2 + dy as int + if v
                        == old_state.5 - 1 {
                        dx as int
                    } else {
                        0
                    }) || (u == old_state.4 && err as int == old_state.2 + if v == old_state.5
                        - 1 {
                        dx as int
                    } else {
                        0
                    }),
                    v == old_state.5 - 1 || v == old_state.5,
            ;
        }
    }
    let ghost before = fb@;
    plot_signed(fb, x, y, color);
    proof {
        let ghost done2 = done.push((x as int, y as int));
        assert forall|cx: int, cy: int|
            0 <= cx < orig.stride && 0 <= cy < orig.height implies #[trigger] fb@.cell(cx, cy)
            == if orig.in_frame(cx, cy) && done2.contains((cx, cy)) {
            color
        } else {
            orig.cell(cx, cy)
        } by {
            lemma_cell_put(before, x as int, y as int, color, cx, cy);
            lemma_contains_push(done, (x as int, y as int), (cx, cy));
        }
        assert(done2 =~= done + seq![(x as int, y as int)]);
        assert(bres_points(
            fuel,
            x as int,
            y as int,
            err as int,
            xt as int,
            yt as int,
            sx as int,
            sy as int,
            dx as int,
            dy as int,
        ) == seq![(x as int, y as int)]);
        assert(target =~= done2);
    }
}

/// Painting one point set after another paints their union.
proof fn lemma_painted_set_union(
    now: FbView,
    mid: FbView,
    orig: FbView,
    s1: Set<(int, int)>,
    s2: Set<(int, int)>,
    color: u32,
)
    requires
        painted_set(mid, orig, s1, color),
        painted_set(now, mid, s2, color),
    ensures
        painted_set(now, orig, s1.union(s2), color),
{
}

/// Painting one point sequence after another paints their concatenation.
proof fn lemma_painted_concat(
    now: FbView,
    mid: FbView,
    orig: FbView,
    s1: Seq<(int, int)>,
    s2: Seq<(int, int)>,
    color: u32,
)
    requires
        painted(mid, orig, s1, color),
        painted(now, mid, s2, color),
    ensures
        painted(now, orig, s1 + s2, color),
{
    assert forall|cx: int, cy: int|
        0 <= cx < orig.stride && 0 <= cy < orig.height implies #[trigger] now.cell(cx, cy)
        == if orig.in_frame(cx, cy) && (s1 + s2).contains((cx, cy)) {
        color
    } else {
        orig.cell(cx, cy)
    } by {
        lemma_contains_concat(s1, s2, (cx, cy));
        assert(now.cell(cx, cy) == if mid.in_frame(cx, cy) && s2.contains((cx, cy)) {
            color
        } else {
            mid.cell(cx, cy)
        });
    }
}

/// Plot the eight mirror images of the octant offset `(x, y)` around
/// `(cx, cy)`, each bounds-checked (and negative mirrors dropped).
fn plot_octet(fb: &mut FramebufferDevice, cx: i64, cy: i64, x: i64, y: i64, color: u32)
    requires
        0 <= cx < 0x4000_0000,
        0 <= cy < 0x4000_0000,
        0 <= x <= 0x4000_0000,
        0 <= y <= 0x4000_0000,
    ensures
        painted_set(
            final(fb)@,
            old(fb)@,
            octet(cx as int, cy as int, x as int, y as int),
            color,
        ),
        final(fb)@.wf(),
{
    proof {
        use_type_invariant(&*fb);
    }
    let ghost b0 = fb@;
    plot_signed(fb, cx + x, cy + y, color);
    let ghost b1 = fb@;
    plot_signed(fb, cx - x, cy + y, color);
    let ghost b2 = fb@;
    plot_signed(fb, cx + x, cy - y, color);
    let ghost b3 = fb@;
    plot_signed(fb, cx - x, cy - y, color);
    let ghost b4 = fb@;
    plot_signed(fb, cx + y, cy + x, color);
    let ghost b5 = fb@;
    plot_signed(fb, cx - y, cy + x, color);
    let ghost b6 = fb@;
    plot_signed(fb, cx + y, cy - x, color);
    let ghost b7 = fb@;
    plot_signed(fb, cx - y, cy - x, color);
    proof {
        assert forall|px: int, py: int|
            0 <= px < b0.stride && 0 <= py < b0.height implies #[trigger] fb@.cell(px, py)
            == if b0.in_frame(px, py) && octet(cx as int, cy as int, x as int, y as int).contains(
            (px, py),
        ) {
            color
        } else {
            b0.cell(px, py)
        } by {
            lemma_cell_put(b0, cx + x, cy + y, color, px, py);
            lemma_cell_put(b1, cx - x, cy + y, color, px, py);
            lemma_cell_put(b2, cx + x, cy - y, color, px, py);
            lemma_cell_put(b3, cx - x, cy - y, color, px, py);
            lemma_cell_put(b4, cx + y, cy + x, color, px, py);
            lemma_cell_put(b5, cx - y, cy + x, color, px, py);
            lemma_cell_put(b6, cx + y, cy - x, color, px, py);
            lemma_cell_put(b7, cx - y, cy - x, color, px, py);
        }
    }
}

/// Draw the stroked circle of radius `r` around `(cx, cy)` with the midpoint
/// algorithm: exactly the in-frame points of [`circle_points`] take `color`
/// (mirrors falling outside the frame are dropped), everything else is
/// untouched.
pub fn draw_circle(fb: &mut FramebufferDevice, cx: usize, cy: usize, r: usize, color: u32)
    requires
        cx <= MAX_COORD,
        cy <= MAX_COORD,
        r <= MAX_COORD,
    ensures
        painted_set(final(fb)@, old(fb)@, circle_points(cx as int, cy as int, r as int), color),
{
    proof {
        use_type_invariant(&*fb);
    }
    let ghost orig = fb@;
    let cxi: i64 = cx as i64;
    let cyi: i64 = cy as i64;
    let mut x: i64 = r as i64;
    let mut y: i64 = 0;
    let mut err: i64 = 0;
    let ghost mut done: Set<(int, int)> = Set::empty();
    let ghost target = circle_points(cx as int, cy as int, r as int);
    while x >= y
        invariant
            fb@.wf(),
            orig.wf(),
            painted_set(fb@, orig, done, color),
            0 <= y <= x + 2,
            -1 <= x <= r as int,
            err as int == x as int * x as int + y as int * y as int - r as int * r as int,
            cxi == cx as int,
            cyi == cy as int,
            cx <= MAX_COORD,
            cy <= MAX_COORD,
            r <= MAX_COORD,
            target == done.union(circle_rec(cx as int, cy as int, x as int, y as int, err as int)),
        decreases x - y + 2,
    {
        let ghost before = fb@;
        plot_octet(fb, cxi, cyi, x, y, color);
        proof {
            lemma_painted_set_union(
                fb@,
                before,
                orig,
                done,
                octet(cx as int, cy as int, x as int, y as int),
                color,
            );
            done = done.union(octet(cx as int, cy as int, x as int, y as int));
        }
        let ghost old_state = (x as int, y as int, err as int);
        proof {
            // The decision variable tracks `x^2 + y^2 - r^2` exactly, which
            // bounds it well inside `i64`.
            assert(-0x1000_0000_0000_0000 <= err as int
                <= 0x3000_0000_0000_0000) by (nonlinear_arith)
                requires
                    err as int == x as int * x as int + y as int * y as int - r as int * r as int,
                    0 <= x <= 0x3FFF_FFFF,
                    0 <= y <= x + 2,
                    0 <= r as int <= 0x3FFF_FFFF,
            ;
        }
        err = err + 2 * y + 1;
        y = y + 1;
        proof {
            assert(err as int == x as int * x as int + y as int * y as int - r as int * r as int)
                by (nonlinear_arith)
                requires
                    old_state.2 == x as int * x as int + old_state.1 * old_state.1 - r as int
                        * r as int,
                    y as int == old_state.1 + 1,
                    err as int == old_state.2 + 2 * old_state.1 + 1,
            ;
        }
        if err >= x {
            err = err + 1 - 2 * x;
            x = x - 1;
            proof {
                assert(err as int == x as int * x as int + y as int * y as int - r as int
                    * r as int) by (nonlinear_arith)
                    requires
                        old_state.2 + 2 * old_state.1 + 1 == (x as int + 1) * (x as int + 1)
                            + y as int * y as int - r as int * r as int,
                        err as int == old_state.2 + 2 * old_state.1 + 1 + 1 - 2 * (x as int + 1),
                ;
            }
        }
        proof {
            assert(circle_rec(cx as int, cy as int, old_state.0, old_state.1, old_state.2)
                == octet(cx as int, cy as int, old_state.0, old_state.1).union(
                circle_rec(cx as int, cy as int, x as int, y as int, err as int),
            ));
            assert(target =~= done.union(
                circle_rec(cx as int, cy as int, x as int, y as int, err as int),
            ));
        }
    }
    proof {
        assert(circle_rec(cx as int, cy as int, x as int, y as int, err as int) =~= Set::empty());
        assert(target =~= done);
    }
}

/// A point of the closed disk of radius `r` lies in the bounding square.
pub proof fn lemma_disk_in_box(cx: int, cy: int, r: int, px: int, py: int)
    requires
        r >= 0,
        in_disk(cx, cy, r, px, py),
    ensures
        cx - r <= px <= cx + r,
        cy - r <= py <= cy + r,
{
    assert(cx - r <= px <= cx + r && cy - r <= py <= cy + r) by (nonlinear_arith)
        requires
            r >= 0,
            (px - cx) * (px - cx) + (py - cy) * (py - cy) <= r * r,
    ;
}

/// Fill the closed disk of radius `r` around `(cx, cy)`: every in-frame point
/// with squared distance at most `r * r` takes `color` and every other cell is
/// untouched. A brute-force scan of the bounding square.
#[verifier::rlimit(50)]
pub fn fill_circle(fb: &mut FramebufferDevice, cx: usize, cy: usize, r: usize, color: u32)
    requires
        cx <= MAX_COORD,
        cy <= MAX_COORD,
        r <= MAX_COORD,
    ensures
        final(fb)@.width == old(fb)@.width,
        final(fb)@.height == old(fb)@.height,
        final(fb)@.stride == old(fb)@.stride,
        final(fb)@.cells.len() == old(fb)@.cells.len(),
        forall|px: int, py: int|
            0 <= px < old(fb)@.stride && 0 <= py < old(fb)@.height ==> final(fb)@.cell(px, py)
                == if old(fb)@.in_frame(px, py) && in_disk(cx as int, cy as int, r as int, px, py) {
                color
            } else {
                old(fb)@.cell(px, py)
            },
{
    proof {
        use_type_invariant(&*fb);
    }
    let ghost orig = fb@;
    let cxi: i64 = cx as i64;
    let cyi: i64 = cy as i64;
    let ri: i64 = r as i64;
    proof {
        assert(ri * ri <= 0x1000_0000_0000_0000) by (nonlinear_arith)
            requires
                0 <= ri <= 0x3FFF_FFFF,
        ;
    }
    let r2: i64 = ri * ri;
    let mut py: i64 = cyi - ri;
    proof {
        assert forall|qx: int, qy: int|
            0 <= qx < orig.stride && 0 <= qy < orig.height implies #[trigger] fb@.cell(qx, qy)
            == if orig.in_frame(qx, qy) && in_disk(cx as int, cy as int, r as int, qx, qy) && qy
            < py as int {
            color
        } else {
            orig.cell(qx, qy)
        } by {
            if in_disk(cx as int, cy as int, r as int, qx, qy) {
                lemma_disk_in_box(cx as int, cy as int, r as int, qx, qy);
            }
        }
    }
    while py <= cyi + ri
        invariant
            fb@.wf(),
            orig.wf(),
            fb@.width == orig.width,
            fb@.height == orig.height,
            fb@.stride == orig.stride,
            fb@.cells.len() == orig.cells.len(),
            cxi == cx as int,
            cyi == cy as int,
            ri == r as int,
            r2 == ri * ri,
            0 <= cxi <= MAX_COORD,
            0 <= cyi <= MAX_COORD,
            0 <= ri <= MAX_COORD,
            cyi - ri <= py <= cyi + ri + 1,
            forall|qx: int, qy: int|
                #![trigger fb@.cell(qx, qy)]
                0 <= qx < orig.stride && 0 <= qy < orig.height ==> fb@.cell(qx, qy)
                    == if orig.in_frame(qx, qy) && in_disk(cx as int, cy as int, r as int, qx, qy)
                    && qy < py {
                    color
                } else {
                    orig.cell(qx, qy)
                },
        decreases cyi + ri + 1 - py,
    {
        let mut px: i64 = cxi - ri;
        proof {
            assert forall|qx: int, qy: int|
                0 <= qx < orig.stride && 0 <= qy < orig.height implies #[trigger] fb@.cell(qx, qy)
                == if orig.in_frame(qx, qy) && in_disk(cx as int, cy as int, r as int, qx, qy) && (
            qy < py as int || (qy == py as int && qx < px as int)) {
                color
            } else {
                orig.cell(qx, qy)
            } by {
                assert(fb@.cell(qx, qy) == if orig.in_frame(qx, qy) && in_disk(
                    cx as int,
                    cy as int,
                    r as int,
                    qx,
                    qy,
                ) && qy < py as int {
                    color
                } else {
                    orig.cell(qx, qy)
                });
                if in_disk(cx as int, cy as int, r as int, qx, qy) {
                    lemma_disk_in_box(cx as int, cy as int, r as int, qx, qy);
                }
            }
        }
        while px <= cxi + ri
            invariant
                fb@.wf(),
                orig.wf(),
                fb@.width == orig.width,
                fb@.height == orig.height,
                fb@.stride == orig.stride,
                fb@.cells.len() == orig.cells.len(),
                cxi == cx as int,
                cyi == cy as int,
                ri == r as int,
                r2 == ri * ri,
                0 <= cxi <= MAX_COORD,
                0 <= cyi <= MAX_COORD,
                0 <= ri <= MAX_COORD,
                cyi - ri <= py <= cyi + ri,
                cxi - ri <= px <= cxi + ri + 1,
                forall|qx: int, qy: int|
                    #![trigger fb@.cell(qx, qy)]
                    0 <= qx < orig.stride && 0 <= qy < orig.height ==> fb@.cell(qx, qy)
                        == if orig.in_frame(qx, qy) && in_disk(
                        cx as int,
                        cy as int,
                        r as int,
                        qx,
                        qy,
                    ) && (qy < py || (qy == py && qx < px)) {
                        color
                    } else {
                        orig.cell(qx, qy)
                    },
            decreases cxi + ri + 1 - px,
        {
            let ddx: i64 = px - cxi;
            let ddy: i64 = py - cyi;
            proof {
                assert(0 <= ddx * ddx <= 0x1000_0000_0000_0000 && 0 <= ddy * ddy
                    <= 0x1000_0000_0000_0000) by (nonlinear_arith)
                    requires
                        -0x4000_0000 <= ddx <= 0x4000_0000,
                        -0x4000_0000 <= ddy <= 0x4000_0000,
                ;
            }
            let ghost before = fb@;
            if ddx * ddx + ddy * ddy <= r2 {
                plot_signed(fb, px, py, color);
            }
            proof {
                assert forall|qx: int, qy: int|
                    0 <= qx < orig.stride && 0 <= qy < orig.height implies #[trigger] fb@.cell(
                    qx,
                    qy,
                ) == if orig.in_frame(qx, qy) && in_disk(cx as int, cy as int, r as int, qx, qy)
                    && (qy < py || (qy == py && qx < px + 1)) {
                    color
                } else {
                    orig.cell(qx, qy)
                } by {
                    if ddx * ddx + ddy * ddy <= r2 {
                        lemma_cell_put(before, px as int, py as int, color, qx, qy);
                    }
                }
            }
            px = px + 1;
        }
        proof {
            assert forall|qx: int, qy: int|
                0 <= qx < orig.stride && 0 <= qy < orig.height implies #[trigger] fb@.cell(qx, qy)
                == if orig.in_frame(qx, qy) && in_disk(cx as int, cy as int, r as int, qx, qy)
                && qy < py as int + 1 {
                color
            } else {
                orig.cell(qx, qy)
            } by {
                if in_disk(cx as int, cy as int, r as int, qx, qy) {
                    lemma_disk_in_box(cx as int, cy as int, r as int, qx, qy);
                }
            }
        }
        py = py + 1;
    }
    proof {
        assert forall|qx: int, qy: int|
            0 <= qx < orig.stride && 0 <= qy < orig.height implies #[trigger] fb@.cell(qx, qy)
            == if orig.in_frame(qx, qy) && in_disk(cx as int, cy as int, r as int, qx, qy) {
            color
        } else {
            orig.cell(qx, qy)
        } by {
            if in_disk(cx as int, cy as int, r as int, qx, qy) {
                lemma_disk_in_box(cx as int, cy as int, r as int, qx, qy);
            }
        }
    }
}

/// Draw the closed triangle with the given three vertices: its three Bresenham
/// edges, in order, all in `color`.
pub fn draw_triangle(
    fb: &mut FramebufferDevice,
    x0: usize,
    y0: usize,
    x1: usize,
    y1: usize,
    x2: usize,
    y2: usize,
    color: u32,
)
    requires
        x0 <= MAX_COORD,
        y0 <= MAX_COORD,
        x1 <= MAX_COORD,
        y1 <= MAX_COORD,
        x2 <= MAX_COORD,
        y2 <= MAX_COORD,
    ensures
        painted(
            final(fb)@,
            old(fb)@,
            line_points(x0 as int, y0 as int, x1 as int, y1 as int) + line_points(
                x1 as int,
                y1 as int,
                x2 as int,
                y2 as int,
            ) + line_points(x2 as int, y2 as int, x0 as int, y0 as int),
            color,
        ),
{
    let ghost orig = fb@;
    draw_line(fb, x0, y0, x1, y1, color);
    let ghost m1 = fb@;
    draw_line(fb, x1, y1, x2, y2, color);
    let ghost m2 = fb@;
    draw_line(fb, x2, y2, x0, y0, color);
    proof {
        lemma_painted_concat(
            m2,
            m1,
            orig,
            line_points(x0 as int, y0 as int, x1 as int, y1 as int),
            line_points(x1 as int, y1 as int, x2 as int, y2 as int),
            color,
        );
        lemma_painted_concat(
            fb@,
            m2,
            orig,
            line_points(x0 as int, y0 as int, x1 as int, y1 as int) + line_points(
                x1 as int,
                y1 as int,
                x2 as int,
                y2 as int,
            ),
            line_points(x2 as int, y2 as int, x0 as int, y0 as int),
            color,
        );
    }
}

/// Inside its window (`u` columns and `v` rows still to walk, the error term
/// on its invariant line), the Bresenham walk neither overshoots nor runs out
/// of fuel: it starts at `(x, y)` and ends exactly at `(x1, y1)`.
proof fn lemma_bres_arrives(
    fuel: nat,
    x: int,
    y: int,
    err: int,
    x1: int,
    y1: int,
    sx: int,
    sy: int,
    dx: int,
    dy0: int,
    u: int,
    v: int,
)
    requires
        0 <= u <= dx,
        0 <= v <= dy0,
        sx == -1 || sx == 0 || sx == 1,
        sy == -1 || sy == 0 || sy == 1,
        dx > 0 ==> sx != 0,
        dy0 > 0 ==> sy != 0,
        x == x1 - sx * u,
        y == y1 - sy * v,
        err == (dx - u + 1) * (-dy0) + (dy0 - v + 1) * dx,
        u + v <= fuel,
    ensures
        bres_points(fuel, x, y, err, x1, y1, sx, sy, dx, -dy0)[0] == (x, y),
        bres_points(fuel, x, y, err, x1, y1, sx, sy, dx, -dy0).last() == (x1, y1),
    decreases fuel,
{
    let pts = bres_points(fuel, x, y, err, x1, y1, sx, sy, dx, -dy0);
    if fuel == 0 {
        assert(u == 0 && v == 0);
        assert(sx * 0 == 0) by (nonlinear_arith);
        assert(sy * 0 == 0) by (nonlinear_arith);
        assert(x == x1 && y == y1);
        assert(pts == seq![(x, y)]);
    } else if x == x1 && y == y1 {
        assert(pts == seq![(x, y)]);
    } else {
        if u == 0 {
            assert(sx * 0 == 0) by (nonlinear_arith);
            assert(x == x1);
            assert(v >= 1) by {
                if v == 0 {
                    assert(sy * 0 == 0) by (nonlinear_arith);
                }
            };
            lemma_no_step_past_x(dx, dy0, v, err);
        }
        if v == 0 {
            assert(sy * 0 == 0) by (nonlinear_arith);
            assert(y == y1);
            assert(u >= 1);
            lemma_no_step_past_y(dx, dy0, u, err);
        }
        let e2 = 2 * err;
        let fx = e2 >= -dy0;
        let fy = e2 <= dx;
        assert(fx || fy);
        assert(fx ==> u >= 1);
        assert(fy ==> v >= 1);
        let nu = if fx {
            u - 1
        } else {
            u
        };
        let nv = if fy {
            v - 1
        } else {
            v
        };
        let nx = if fx {
            x + sx
        } else {
            x
        };
        let ny = if fy {
            y + sy
        } else {
            y
        };
        let nerr = err + (if fx {
            -dy0
        } else {
            0
        }) + (if fy {
            dx
        } else {
            0
        });
        assert(bres_step(x, y, err, sx, sy, dx, -dy0) == (nx, ny, nerr));
        assert(nx == x1 - sx * nu) by (nonlinear_arith)
            requires
                x == x1 - sx * u,
                (fx && nx == x + sx && nu == u - 1) || (!fx && nx == x && nu == u),
        ;
        assert(ny == y1 - sy * nv) by (nonlinear_arith)
            requires
                y == y1 - sy * v,
                (fy && ny == y + sy && nv == v - 1) || (!fy && ny == y && nv == v),
        ;
        assert(nerr == (dx - nu + 1) * (-dy0) + (dy0 - nv + 1) * dx) by (nonlinear_arith)
            requires
                err == (dx - u + 1) * (-dy0) + (dy0 - v + 1) * dx,
                nerr == err + (if fx {
                    -dy0
                } else {
                    0
                }) + (if fy {
                    dx
                } else {
                    0
                }),
                nu == if fx {
                    u - 1
                } else {
                    u
                },
                nv == if fy {
                    v - 1
                } else {
                    v
                },
        ;
        lemma_bres_arrives((fuel - 1) as nat, nx, ny, nerr, x1, y1, sx, sy, dx, dy0, nu, nv);
        let rest = bres_points((fuel - 1) as nat, nx, ny, nerr, x1, y1, sx, sy, dx, -dy0);
        assert(rest[0] == (nx, ny));
        assert(rest.len() >= 1);
        assert(pts == seq![(x, y)] + rest);
        assert(pts.last() == rest.last());
    }
}

/// The line visits both of its endpoints: the first point of [`line_points`]
/// is `(x0, y0)` and its last point is `(x1, y1)`.
pub proof fn lemma_line_endpoints(x0: int, y0: int, x1: int, y1: int)
    ensures
        line_points(x0, y0, x1, y1)[0] == (x0, y0),
        line_points(x0, y0, x1, y1).last() == (x1, y1),
{
    let dx = vstd::math::abs(x1 - x0) as int;
    let dy0 = vstd::math::abs(y1 - y0) as int;
    let sx = sign_of(x1 - x0);
    let sy = sign_of(y1 - y0);
    assert(x0 == x1 - sx * dx) by (nonlinear_arith)
        requires
            dx == if x1 - x0 < 0 {
                x0 - x1
            } else {
                x1 - x0
            },
            sx == sign_of(x1 - x0),
            sx == if x1 - x0 < 0 {
                -1int
            } else if x1 - x0 > 0 {
                1int
            } else {
                0int
            },
    ;
    assert(y0 == y1 - sy * dy0) by (nonlinear_arith)
        requires
            dy0 == if y1 - y0 < 0 {
                y0 - y1
            } else {
                y1 - y0
            },
            sy == sign_of(y1 - y0),
            sy == if y1 - y0 < 0 {
                -1int
            } else if y1 - y0 > 0 {
                1int
            } else {
                0int
            },
    ;
    assert(dx + (-dy0) == (dx - dx + 1) * (-dy0) + (dy0 - dy0 + 1) * dx) by (nonlinear_arith);
    lemma_bres_arrives(
        (dx + dy0) as nat,
        x0,
        y0,
        dx + (-dy0),
        x1,
        y1,
        sx,
        sy,
        dx,
        dy0,
        dx,
        dy0,
    );
}

/// The midpoint circle walk only ever plots whole octets, so its point set is
/// closed under the three mirror reflections around the centre.
proof fn lemma_circle_rec_mirrors(cx: int, cy: int, x: int, y: int, err: int, px: int, py: int)
    requires
        circle_rec(cx, cy, x, y, err).contains((px, py)),
    ensures
        circle_rec(cx, cy, x, y, err).contains((2 * cx - px, py)),
        circle_rec(cx, cy, x, y, err).contains((px, 2 * cy - py)),
        circle_rec(cx, cy, x, y, err).contains((2 * cx - px, 2 * cy - py)),
    decreases x - y + 2,
{
    if x < y {
        assert(false);
    } else {
        let oct = octet(cx, cy, x, y);
        if oct.contains((px, py)) {
            assert(oct.contains((2 * cx - px, py)));
            assert(oct.contains((px, 2 * cy - py)));
            assert(oct.contains((2 * cx - px, 2 * cy - py)));
        } else {
            let e1 = err + 2 * y + 1;
            let ny = y + 1;
            if e1 >= x {
                lemma_circle_rec_mirrors(cx, cy, x - 1, ny, e1 + 1 - 2 * x, px, py);
            } else {
                lemma_circle_rec_mirrors(cx, cy, x, ny, e1, px, py);
            }
        }
    }
}

/// The stroked circle is symmetric under the reflections its algorithm uses:
/// for every point `(px, py)` of [`circle_points`], the mirrored points
/// `(2 cx - px, py)`, `(px, 2 cy - py)` and `(2 cx - px, 2 cy - py)` belong to
/// it as well.
pub proof fn lemma_circle_symmetry(cx: int, cy: int, r: int, px: int, py: int)
    requires
        circle_points(cx, cy, r).contains((px, py)),
    ensures
        circle_points(cx, cy, r).contains((2 * cx - px, py)),
        circle_points(cx, cy, r).contains((px, 2 * cy - py)),
        circle_points(cx, cy, r).contains((2 * cx - px, 2 * cy - py)),
{
    lemma_circle_rec_mirrors(cx, cy, r, 0, 0, px, py);
}

} // verus!
