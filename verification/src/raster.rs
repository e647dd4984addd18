use vstd::prelude::*;

use vstd::math::abs;

use crate::geometry::{
    gtri_vbound, gtri_wf, lemma_trunc_div_in_box, trunc_div, vec_vbound, wf_vec, GVec4, Triangle,
    Vector4,
};

verus! {

/// Pixel coordinates handed to the rasterizer must stay within this bound
/// so that the integer error accumulators of the scan conversions cannot
/// overflow.
pub const COORD_LIMIT: i32 = 0x10_0000;

/// The pixel buffer and its dimensions: a row-major `width * height` array
/// of packed 32-bit colors that the rasterizer draws into.
#[derive(Debug, Clone)]
pub struct Drawer {
    pub width: usize,
    pub height: usize,
    pub buffer: Vec<u32>,
}

impl Drawer {
    /// Well-formed: the buffer holds exactly one pixel per cell, and the
    /// dimensions are modest enough for 32-bit pixel coordinates.
    pub open spec fn wf(&self) -> bool {
        &&& self.buffer.len() == self.width * self.height
        &&& self.width < 0x8000_0000
        &&& self.height < 0x8000_0000
    }

    /// The pixel at column `x` of row `y`.
    pub open spec fn pix(&self, x: int, y: int) -> u32 {
        self.buffer@[y * self.width + x]
    }

    /// Whether `(x, y)` lies inside the buffer.
    pub open spec fn in_bounds(&self, x: int, y: int) -> bool {
        0 <= x < self.width && 0 <= y < self.height
    }

    /// A buffer of the given dimensions, cleared to black.
    pub fn new(width: usize, height: usize) -> (r: Drawer)
        requires
            width * height <= usize::MAX,
            width < 0x8000_0000,
            height < 0x8000_0000,
        ensures
            r.wf(),
            r.width == width,
            r.height == height,
            forall|x: int, y: int| r.in_bounds(x, y) ==> r.pix(x, y) == 0u32,
    {
        let n = width * height;
        let mut buffer: Vec<u32> = Vec::new();
        let mut i: usize = 0;
        while i < n
            invariant
                i <= n,
                buffer@.len() == i,
                forall|j: int| 0 <= j < i ==> buffer@[j] == 0u32,
            decreases n - i,
        {
            buffer.push(0);
            i += 1;
        }
        let r = Drawer { width, height, buffer };
        proof {
            assert forall|x: int, y: int| r.in_bounds(x, y) implies r.pix(x, y) == 0u32 by {
                lemma_row_major_index(width as int, height as int, x, y);
            }
        }
        r
    }

    /// Draws one pixel, bounds-checked: a write outside the buffer is a
    /// silent no-op, never a panic, and the buffer is untouched.
    pub fn draw(&mut self, x: i32, y: i32, col: u32)
        requires
            old(self).wf(),
        ensures
            final(self).wf(),
            final(self).width == old(self).width,
            final(self).height == old(self).height,
            old(self).in_bounds(x as int, y as int) ==> final(self).buffer@ == old(
                self,
            ).buffer@.update((y as int) * old(self).width + (x as int), col),
            !old(self).in_bounds(x as int, y as int) ==> final(self).buffer@ == old(
                self,
            ).buffer@,
    {
        if x >= 0 && x < (self.width as i32) && y >= 0 && y < (self.height as i32) {
            proof {
                lemma_row_major_index(
                    self.width as int,
                    self.height as int,
                    x as int,
                    y as int,
                );
            }
            let idx = (y as usize) * self.width + (x as usize);
            self.buffer[idx] = col;
        }
    }

    /// Reads one pixel; the coordinates must be inside the buffer.
    pub fn get(&self, x: i32, y: i32) -> (r: u32)
        requires
            self.wf(),
            self.in_bounds(x as int, y as int),
        ensures
            r == self.pix(x as int, y as int),
    {
        proof {
            lemma_row_major_index(self.width as int, self.height as int, x as int, y as int);
        }
        self.buffer[(y as usize) * self.width + (x as usize)]
    }

    /// Clamps a coordinate pair into the buffer rectangle.
    pub fn clip(&self, x: i32, y: i32) -> (r: (i32, i32))
        requires
            self.wf(),
            self.width >= 1,
            self.height >= 1,
        ensures
            r.0 == (if x < 0 {
                0int
            } else if x >= self.width {
                self.width - 1
            } else {
                x as int
            }),
            r.1 == (if y < 0 {
                0int
            } else if y >= self.height {
                self.height - 1
            } else {
                y as int
            }),
    {
        let mut cx = x;
        let mut cy = y;
        if cx < 0 {
            cx = 0;
        }
        if cx >= (self.width as i32) {
            cx = (self.width as i32) - 1;
        }
        if cy < 0 {
            cy = 0;
        }
        if cy >= (self.height as i32) {
            cy = (self.height as i32) - 1;
        }
        (cx, cy)
    }

    /// Swaps two coordinates in place.
    pub fn swap(x: &mut i32, y: &mut i32)
        ensures
            *final(x) == *old(y),
            *final(y) == *old(x),
    {
        let t = *x;
        *x = *y;
        *y = t;
    }

    /// Fills the axis-aligned rectangle with corners `(x1, y1)` and
    /// `(x2, y2)` (both inclusive), clipped to the buffer: every in-bounds
    /// pixel of the rectangle takes `col`, every other pixel is untouched.
    #[verifier::loop_isolation(false)]
    pub fn fill(&mut self, x1: i32, y1: i32, x2: i32, y2: i32, col: u32)
        requires
            old(self).wf(),
            -COORD_LIMIT <= x1 <= COORD_LIMIT,
            -COORD_LIMIT <= y1 <= COORD_LIMIT,
            -COORD_LIMIT <= x2 <= COORD_LIMIT,
            -COORD_LIMIT <= y2 <= COORD_LIMIT,
        ensures
            final(self).wf(),
            final(self).width == old(self).width,
            final(self).height == old(self).height,
            forall|xx: int, yy: int|
                old(self).in_bounds(xx, yy) ==> #[trigger] final(self).pix(xx, yy) == (if x1 <= xx
                    <= x2 && y1 <= yy <= y2 {
                    col
                } else {
                    old(self).pix(xx, yy)
                }),
    {
        let mut x = x1;
        while x <= x2
            invariant
                self.wf(),
                self.width == old(self).width,
                self.height == old(self).height,
                x1 <= x,
                x <= x2 + 1 || x == x1,
                forall|xx: int, yy: int|
                    old(self).in_bounds(xx, yy) ==> #[trigger] self.pix(xx, yy) == (if x1 <= xx
                        < x && y1 <= yy <= y2 {
                        col
                    } else {
                        old(self).pix(xx, yy)
                    }),
            decreases x2 + 1 - x,
        {
            let mut y = y1;
            while y <= y2
                invariant
                    self.wf(),
                    self.width == old(self).width,
                    self.height == old(self).height,
                    x1 <= x <= x2,
                    y1 <= y,
                    y <= y2 + 1 || y == y1,
                    forall|xx: int, yy: int|
                        old(self).in_bounds(xx, yy) ==> #[trigger] self.pix(xx, yy) == (if (x1
                            <= xx < x && y1 <= yy <= y2) || (xx == x && y1 <= yy < y) {
                            col
                        } else {
                            old(self).pix(xx, yy)
                        }),
                decreases y2 + 1 - y,
            {
                let ghost prev = *self;
                self.draw(x, y, col);
                proof {
                    lemma_draw_pointwise(prev, *self, x as int, y as int, col);
                }
                y += 1;
            }
            x += 1;
        }
    }
}

/// The row-major index of an in-bounds pixel is in range, and distinct
/// in-bounds pixels have distinct indices.
pub proof fn lemma_row_major_index(w: int, h: int, x: int, y: int) by (nonlinear_arith)
    requires
        0 <= x < w,
        0 <= y < h,
    ensures
        0 <= y * w + x < w * h,
        forall|x2: int, y2: int|
            0 <= x2 < w && 0 <= y2 < h && #[trigger] (y2 * w + x2) == y * w + x ==> x2 == x && y2
                == y,
{
}

/// How one bounds-checked pixel write changes the buffer, pixel by pixel.
pub proof fn lemma_draw_pointwise(pre: Drawer, post: Drawer, x: int, y: int, col: u32)
    requires
        pre.wf(),
        post.wf(),
        post.width == pre.width,
        post.height == pre.height,
        pre.in_bounds(x, y) ==> post.buffer@ == pre.buffer@.update(y * pre.width + x, col),
        !pre.in_bounds(x, y) ==> post.buffer@ == pre.buffer@,
    ensures
        forall|xx: int, yy: int|
            pre.in_bounds(xx, yy) ==> #[trigger] post.pix(xx, yy) == (if xx == x && yy == y {
                col
            } else {
                pre.pix(xx, yy)
            }),
{
    assert forall|xx: int, yy: int| pre.in_bounds(xx, yy) implies #[trigger] post.pix(xx, yy)
        == (if xx == x && yy == y {
        col
    } else {
        pre.pix(xx, yy)
    }) by {
        lemma_row_major_index(pre.width as int, pre.height as int, xx, yy);
        if pre.in_bounds(x, y) {
            lemma_row_major_index(pre.width as int, pre.height as int, x, y);
        }
    }
}

/// Membership in a pushed sequence.
pub proof fn lemma_contains_push(s: Seq<(int, int)>, v: (int, int), x: (int, int))
    ensures
        s.push(v).contains(x) <==> (s.contains(x) || x == v),
{
    if s.contains(x) {
        let i = choose|i: int| 0 <= i < s.len() && s[i] == x;
        assert(s.push(v)[i] == x);
    }
    if x == v {
        assert(s.push(v)[s.len() as int] == x);
    }
    if s.push(v).contains(x) && x != v {
        let i = choose|i: int| 0 <= i < s.push(v).len() && s.push(v)[i] == x;
        assert(s[i] == x);
    }
}

/// Membership in a concatenation.
pub proof fn lemma_contains_concat(a: Seq<(int, int)>, b: Seq<(int, int)>, x: (int, int))
    ensures
        (a + b).contains(x) <==> (a.contains(x) || b.contains(x)),
{
    if a.contains(x) {
        let i = choose|i: int| 0 <= i < a.len() && a[i] == x;
        assert((a + b)[i] == x);
    }
    if b.contains(x) {
        let i = choose|i: int| 0 <= i < b.len() && b[i] == x;
        assert((a + b)[a.len() + i] == x);
    }
    if (a + b).contains(x) {
        let i = choose|i: int| 0 <= i < (a + b).len() && (a + b)[i] == x;
        if i < a.len() {
            assert(a[i] == x);
        } else {
            assert(b[i - a.len()] == x);
        }
    }
}

/// The points a run of the x-major Bresenham loop still paints, given the
/// current position `(x, y)`, error accumulator `px` and `n` steps left:
/// each step advances `x` by one and moves `y` by `ydir` exactly when the
/// accumulated error is nonnegative.
pub open spec fn bres_rest_x(
    x: int, y: int, px: int, dx1: int, dy1: int, ydir: int, n: nat,
) -> Seq<(int, int)>
    decreases n,
{
    if n == 0 {
        Seq::empty()
    } else {
        let px2 = if px < 0 { px + 2 * dy1 } else { px + 2 * (dy1 - dx1) };
        let y2 = if px < 0 { y } else { y + ydir };
        seq![(x + 1, y2)] + bres_rest_x(x + 1, y2, px2, dx1, dy1, ydir, (n - 1) as nat)
    }
}

/// The points a run of the y-major Bresenham loop still paints; the error
/// test is `py <= 0` here, exactly as the drawing loop has it.
pub open spec fn bres_rest_y(
    x: int, y: int, py: int, dx1: int, dy1: int, xdir: int, n: nat,
) -> Seq<(int, int)>
    decreases n,
{
    if n == 0 {
        Seq::empty()
    } else {
        let py2 = if py <= 0 { py + 2 * dx1 } else { py + 2 * (dx1 - dy1) };
        let x2 = if py <= 0 { x } else { x + xdir };
        seq![(x2, y + 1)] + bres_rest_y(x2, y + 1, py2, dx1, dy1, xdir, (n - 1) as nat)
    }
}

/// Exactly the pixels the Bresenham line from `(x1, y1)` to `(x2, y2)`
/// paints, in drawing order: the line is walked from its left (or top)
/// endpoint along the major axis, with axis-driven error accumulation,
/// symmetric over all eight octants.
pub open spec fn line_points(x1: int, y1: int, x2: int, y2: int) -> Seq<(int, int)> {
    let dx = x2 - x1;
    let dy = y2 - y1;
    let dx1 = abs(dx) as int;
    let dy1 = abs(dy) as int;
    let dir = if (dx < 0 && dy < 0) || (dx > 0 && dy > 0) {
        1int
    } else {
        -1int
    };
    if dy1 <= dx1 {
        let sx = if dx >= 0 { x1 } else { x2 };
        let sy = if dx >= 0 { y1 } else { y2 };
        seq![(sx, sy)] + bres_rest_x(sx, sy, 2 * dy1 - dx1, dx1, dy1, dir, dx1 as nat)
    } else {
        let sx = if dy >= 0 { x1 } else { x2 };
        let sy = if dy >= 0 { y1 } else { y2 };
        seq![(sx, sy)] + bres_rest_y(sx, sy, 2 * dx1 - dy1, dx1, dy1, dir, dy1 as nat)
    }
}

/// The pixels of a triangle's outline: its three edges drawn as lines.
pub open spec fn triangle_outline(
    x1: int, y1: int, x2: int, y2: int, x3: int, y3: int,
) -> Seq<(int, int)> {
    line_points(x1, y1, x2, y2) + line_points(x2, y2, x3, y3) + line_points(x3, y3, x1, y1)
}

impl Drawer {
    /// Draws the line from `(x1, y1)` to `(x2, y2)` by integer Bresenham:
    /// exactly the pixels of `line_points` take `col` (where in bounds),
    /// every other pixel is untouched.
    #[verifier::loop_isolation(false)]
    #[verifier::rlimit(100)]
    pub fn draw_line(&mut self, x1: i32, y1: i32, x2: i32, y2: i32, col: u32)
        requires
            old(self).wf(),
            -COORD_LIMIT <= x1 <= COORD_LIMIT,
            -COORD_LIMIT <= y1 <= COORD_LIMIT,
            -COORD_LIMIT <= x2 <= COORD_LIMIT,
            -COORD_LIMIT <= y2 <= COORD_LIMIT,
        ensures
            final(self).wf(),
            final(self).width == old(self).width,
            final(self).height == old(self).height,
            forall|xx: int, yy: int|
                old(self).in_bounds(xx, yy) ==> #[trigger] final(self).pix(xx, yy) == (if
                line_points(x1 as int, y1 as int, x2 as int, y2 as int).contains((xx, yy)) {
                    col
                } else {
                    old(self).pix(xx, yy)
                }),
    {
        let ghost all_pts = line_points(x1 as int, y1 as int, x2 as int, y2 as int);
        let dx = x2 - x1;
        let dy = y2 - y1;
        let dx1 = if dx >= 0 { dx } else { -dx };
        let dy1 = if dy >= 0 { dy } else { -dy };
        let ghost dir: int = if (dx < 0 && dy < 0) || (dx > 0 && dy > 0) { 1int } else { -1int };
        if dy1 <= dx1 {
            let mut px = 2 * dy1 - dx1;
            let mut x: i32;
            let mut y: i32;
            if dx >= 0 {
                x = x1;
                y = y1;
            } else {
                x = x2;
                y = y2;
            }
            let ghost sx = x as int;
            let ghost sy = y as int;
            let ghost prev0 = *self;
            self.draw(x, y, col);
            proof {
                lemma_draw_pointwise(prev0, *self, x as int, y as int, col);
            }
            let ghost mut painted: Seq<(int, int)> = seq![(sx, sy)];
            proof {
                assert(painted =~= Seq::empty().push((sx, sy)));
                assert forall|xx: int, yy: int| old(self).in_bounds(xx, yy)
                    implies #[trigger] self.pix(xx, yy) == (if painted.contains((xx, yy)) {
                    col
                } else {
                    old(self).pix(xx, yy)
                }) by {
                    lemma_contains_push(Seq::empty(), (sx, sy), (xx, yy));
                }
            }
            for i in 0..dx1
                invariant
                    self.wf(),
                    self.width == old(self).width,
                    self.height == old(self).height,
                    x == sx + i,
                    sy - i <= y <= sy + i,
                    -2 * dx1 <= px <= 2 * dy1,
                    painted + bres_rest_x(
                        x as int, y as int, px as int,
                        dx1 as int, dy1 as int, dir, (dx1 - i) as nat,
                    ) == all_pts,
                    forall|xx: int, yy: int|
                        old(self).in_bounds(xx, yy) ==> #[trigger] self.pix(xx, yy) == (if
                        painted.contains((xx, yy)) {
                            col
                        } else {
                            old(self).pix(xx, yy)
                        }),
            {
                proof {
                    assert(bres_rest_x(
                        x as int, y as int, px as int,
                        dx1 as int, dy1 as int, dir, (dx1 - i) as nat,
                    ) == seq![
                        ((x + 1) as int, (if px < 0 { y as int } else { y + dir })),
                    ] + bres_rest_x(
                        x + 1, if px < 0 { y as int } else { y + dir },
                        if px < 0 { px + 2 * dy1 } else { px + 2 * (dy1 - dx1) },
                        dx1 as int, dy1 as int, dir, (dx1 - i - 1) as nat,
                    ));
                }
                if px < 0 {
                    px = px + 2 * dy1;
                } else {
                    if (dx < 0 && dy < 0) || (dx > 0 && dy > 0) {
                        y += 1;
                    } else {
                        y -= 1;
                    }
                    px = px + 2 * (dy1 - dx1);
                }
                x += 1;
                let ghost prev = *self;
                self.draw(x, y, col);
                proof {
                    lemma_draw_pointwise(prev, *self, x as int, y as int, col);
                    let p = (x as int, y as int);
                    assert forall|xx: int, yy: int| old(self).in_bounds(xx, yy)
                        implies #[trigger] self.pix(xx, yy) == (if painted.push(p).contains(
                        (xx, yy),
                    ) {
                        col
                    } else {
                        old(self).pix(xx, yy)
                    }) by {
                        lemma_contains_push(painted, p, (xx, yy));
                    }
                    assert(painted.push(p) + bres_rest_x(
                        x as int, y as int, px as int,
                        dx1 as int, dy1 as int, dir, (dx1 - i - 1) as nat,
                    ) =~= all_pts);
                    painted = painted.push(p);
                }
            }
            proof {
                assert(painted =~= all_pts);
            }
        } else {
            let mut py = 2 * dx1 - dy1;
            let mut x: i32;
            let mut y: i32;
            if dy >= 0 {
                x = x1;
                y = y1;
            } else {
                x = x2;
                y = y2;
            }
            let ghost sx = x as int;
            let ghost sy = y as int;
            let ghost prev0 = *self;
            self.draw(x, y, col);
            proof {
                lemma_draw_pointwise(prev0, *self, x as int, y as int, col);
            }
            let ghost mut painted: Seq<(int, int)> = seq![(sx, sy)];
            proof {
                assert(painted =~= Seq::empty().push((sx, sy)));
                assert forall|xx: int, yy: int| old(self).in_bounds(xx, yy)
                    implies #[trigger] self.pix(xx, yy) == (if painted.contains((xx, yy)) {
                    col
                } else {
                    old(self).pix(xx, yy)
                }) by {
                    lemma_contains_push(Seq::empty(), (sx, sy), (xx, yy));
                }
            }
            for i in 0..dy1
                invariant
                    self.wf(),
                    self.width == old(self).width,
                    self.height == old(self).height,
                    y == sy + i,
                    sx - i <= x <= sx + i,
                    -2 * dy1 <= py <= 2 * dx1,
                    painted + bres_rest_y(
                        x as int, y as int, py as int,
                        dx1 as int, dy1 as int, dir, (dy1 - i) as nat,
                    ) == all_pts,
                    forall|xx: int, yy: int|
                        old(self).in_bounds(xx, yy) ==> #[trigger] self.pix(xx, yy) == (if
                        painted.contains((xx, yy)) {
                            col
                        } else {
                            old(self).pix(xx, yy)
                        }),
            {
                proof {
                    assert(bres_rest_y(
                        x as int, y as int, py as int,
                        dx1 as int, dy1 as int, dir, (dy1 - i) as nat,
                    ) == seq![
                        ((if py <= 0 { x as int } else { x + dir }), (y + 1) as int),
                    ] + bres_rest_y(
                        if py <= 0 { x as int } else { x + dir }, y + 1,
                        if py <= 0 { py + 2 * dx1 } else { py + 2 * (dx1 - dy1) },
                        dx1 as int, dy1 as int, dir, (dy1 - i - 1) as nat,
                    ));
                }
                if py <= 0 {
                    py = py + 2 * dx1;
                } else {
                    if (dx < 0 && dy < 0) || (dx > 0 && dy > 0) {
                        x += 1;
                    } else {
                        x -= 1;
                    }
                    py = py + 2 * (dx1 - dy1);
                }
                y += 1;
                let ghost prev = *self;
                self.draw(x, y, col);
                proof {
                    lemma_draw_pointwise(prev, *self, x as int, y as int, col);
                    let p = (x as int, y as int);
                    assert forall|xx: int, yy: int| old(self).in_bounds(xx, yy)
                        implies #[trigger] self.pix(xx, yy) == (if painted.push(p).contains(
                        (xx, yy),
                    ) {
                        col
                    } else {
                        old(self).pix(xx, yy)
                    }) by {
                        lemma_contains_push(painted, p, (xx, yy));
                    }
                    assert(painted.push(p) + bres_rest_y(
                        x as int, y as int, py as int,
                        dx1 as int, dy1 as int, dir, (dy1 - i - 1) as nat,
                    ) =~= all_pts);
                    painted = painted.push(p);
                }
            }
            proof {
                assert(painted =~= all_pts);
            }
        }
    }
}


/// `n / d` rounded to the nearest integer with ties away from zero, for
/// `d > 0`: the rounding the scanline fill applies to its exact rational
/// edge coordinates.
pub open spec fn round_half(n: int, d: int) -> int {
    if n >= 0 {
        (2 * n + d) / (2 * d)
    } else {
        -((d - 2 * n) / (2 * d))
    }
}

/// Rounding half-away stays inside a symmetric box around zero.
pub proof fn lemma_round_half_in_box(n: int, d: int, m: int)
    requires
        d > 0,
        m >= 0,
        -m * d <= n <= m * d,
    ensures
        -m <= round_half(n, d) <= m,
{
    if n >= 0 {
        vstd::arithmetic::div_mod::lemma_fundamental_div_mod(2 * n + d, 2 * d);
        vstd::arithmetic::div_mod::lemma_mod_bound(2 * n + d, 2 * d);
        let q = (2 * n + d) / (2 * d);
        assert(0 <= q <= m) by (nonlinear_arith)
            requires
                d > 0,
                m >= 0,
                0 <= n <= m * d,
                2 * n + d == 2 * d * q + ((2 * n + d) % (2 * d)),
                0 <= (2 * n + d) % (2 * d) < 2 * d,
        ;
    } else {
        vstd::arithmetic::div_mod::lemma_fundamental_div_mod(d - 2 * n, 2 * d);
        vstd::arithmetic::div_mod::lemma_mod_bound(d - 2 * n, 2 * d);
        let q = (d - 2 * n) / (2 * d);
        assert(0 <= q <= m) by (nonlinear_arith)
            requires
                d > 0,
                m >= 0,
                -m * d <= n < 0,
                d - 2 * n == 2 * d * q + ((d - 2 * n) % (2 * d)),
                0 <= (d - 2 * n) % (2 * d) < 2 * d,
        ;
    }
}

/// Computes `round_half(n, d)` for `d > 0`, with the result known to stay
/// in the `[-m, m]` box that holds `n / d`.
fn round_div(n: i64, d: i64, m: i64) -> (r: i64)
    requires
        1 <= d,
        0 <= m <= 0x80_0000,
        -m * d <= n <= m * d,
        d <= 0x40_0000,
    ensures
        r as int == round_half(n as int, d as int),
        -m <= r <= m,
{
    proof {
        lemma_round_half_in_box(n as int, d as int, m as int);
        assert(-0x2000_0000_0000 <= n <= 0x2000_0000_0000) by (nonlinear_arith)
            requires
                1 <= d <= 0x40_0000,
                0 <= m <= 0x80_0000,
                -m * d <= n <= m * d,
        ;
    }
    if n >= 0 {
        (2 * n + d).checked_div_euclid(2 * d).unwrap()
    } else {
        -((d - 2 * n).checked_div_euclid(2 * d).unwrap())
    }
}

/// The x coordinate of the edge from `(xs, ys)` to `(xe, ye)` at row `y`:
/// the exact rational `xs + (xe - xs) * (y - ys) / (ye - ys)` rounded half
/// away from zero, or `xs` for a horizontal edge (slope treated as zero).
pub open spec fn edge_x(xs: int, ys: int, xe: int, ye: int, y: int) -> int {
    if ye == ys {
        xs
    } else {
        round_half(xs * (ye - ys) + (xe - xs) * (y - ys), ye - ys)
    }
}

/// Computes `edge_x` for an edge sorted upward (`ys <= ye`).
fn edge_x_exec(xs: i32, ys: i32, xe: i32, ye: i32, y: i32) -> (r: i32)
    requires
        -COORD_LIMIT <= xs <= COORD_LIMIT,
        -COORD_LIMIT <= ys <= COORD_LIMIT,
        -COORD_LIMIT <= xe <= COORD_LIMIT,
        -COORD_LIMIT <= ye <= COORD_LIMIT,
        ys <= ye,
        ys <= y <= ye || ys == ye,
    ensures
        r as int == edge_x(xs as int, ys as int, xe as int, ye as int, y as int),
        -0x80_0000 <= r <= 0x80_0000,
{
    if ye == ys {
        xs
    } else {
        let d = ((ye - ys) as i64);
        proof {
            crate::geometry::lemma_mul_bound(xs as int, d as int, 0x10_0000, 0x40_0000);
            crate::geometry::lemma_mul_bound(
                (xe - xs) as int,
                (y - ys) as int,
                0x20_0000,
                0x40_0000,
            );
        }
        let n = (xs as i64) * d + ((xe - xs) as i64) * ((y - ys) as i64);
        proof {
            assert(-0x80_0000 * d <= n <= 0x80_0000 * d) by (nonlinear_arith)
                requires
                    1 <= d <= 0x40_0000,
                    -0x10_0000 <= xs <= 0x10_0000,
                    0 <= y - ys <= d,
                    -0x20_0000 <= xe - xs <= 0x20_0000,
                    n == (xs as int) * (d as int) + (xe - xs) * (y - ys),
            ;
        }
        let r = round_div(n, d, 0x80_0000);
        r as i32
    }
}

/// The three corner points sorted by ascending `y`, stably: corners with
/// equal `y` keep their given order, which decides which spans the fill
/// walks, exactly as a stable sort by `y` of the corner array would.
pub open spec fn sorted3(a: (int, int), b: (int, int), c: (int, int)) -> (
    (int, int),
    (int, int),
    (int, int),
) {
    if a.1 <= b.1 {
        if b.1 <= c.1 {
            (a, b, c)
        } else if a.1 <= c.1 {
            (a, c, b)
        } else {
            (c, a, b)
        }
    } else {
        if a.1 <= c.1 {
            (b, a, c)
        } else if b.1 <= c.1 {
            (b, c, a)
        } else {
            (c, b, a)
        }
    }
}

/// `x` lies in the inclusive span between `a` and `b`, either way round.
pub open spec fn between(a: int, b: int, x: int) -> bool {
    if a <= b {
        a <= x <= b
    } else {
        b <= x <= a
    }
}

/// The pixels the flat scanline fill paints for the triangle with the
/// given corners: with the corners sorted by `y` into `(a, b, c)`, the
/// rows from `a` to `b` span between the a--b and a--c edges, and the rows
/// from `b` to `c` span between the b--c and a--c edges; the long edge
/// a--c is interpolated from the top corner in both sweeps.
pub open spec fn tri_covered(
    x1: int, y1: int, x2: int, y2: int, x3: int, y3: int, xx: int, yy: int,
) -> bool {
    let s = sorted3((x1, y1), (x2, y2), (x3, y3));
    let a = s.0;
    let b = s.1;
    let c = s.2;
    ||| (a.1 <= yy <= b.1 && between(
        edge_x(a.0, a.1, b.0, b.1, yy),
        edge_x(a.0, a.1, c.0, c.1, yy),
        xx,
    ))
    ||| (b.1 <= yy <= c.1 && between(
        edge_x(b.0, b.1, c.0, c.1, yy),
        edge_x(a.0, a.1, c.0, c.1, yy),
        xx,
    ))
}

impl Drawer {
    /// Paints row `ny` from `sx` to `ex` inclusive (either way round),
    /// bounds-checked per pixel.
    #[verifier::loop_isolation(false)]
    fn fill_line(&mut self, sx: i32, ex: i32, ny: i32, col: u32)
        requires
            old(self).wf(),
            -0x80_0000 <= sx <= 0x80_0000,
            -0x80_0000 <= ex <= 0x80_0000,
        ensures
            final(self).wf(),
            final(self).width == old(self).width,
            final(self).height == old(self).height,
            forall|xx: int, yy: int|
                old(self).in_bounds(xx, yy) ==> #[trigger] final(self).pix(xx, yy) == (if yy
                    == ny && between(sx as int, ex as int, xx) {
                    col
                } else {
                    old(self).pix(xx, yy)
                }),
    {
        let mut s = sx;
        let mut e = ex;
        if s > e {
            Self::swap(&mut s, &mut e);
        }
        let mut x = s;
        while x <= e
            invariant
                self.wf(),
                self.width == old(self).width,
                self.height == old(self).height,
                s <= x,
                x <= e + 1 || x == s,
                forall|xx: int, yy: int|
                    old(self).in_bounds(xx, yy) ==> #[trigger] self.pix(xx, yy) == (if yy == ny
                        && s <= xx < x {
                        col
                    } else {
                        old(self).pix(xx, yy)
                    }),
            decreases e + 1 - x,
        {
            let ghost prev = *self;
            self.draw(x, ny, col);
            proof {
                lemma_draw_pointwise(prev, *self, x as int, ny as int, col);
            }
            x += 1;
        }
    }

    /// Fills the triangle with the given corners by flat scanline
    /// conversion: exactly the pixels of `tri_covered` take `col` (where
    /// in bounds), every other pixel is untouched.
    #[verifier::loop_isolation(false)]
    pub fn fill_triangle(&mut self, x1: i32, y1: i32, x2: i32, y2: i32, x3: i32, y3: i32, col: u32)
        requires
            old(self).wf(),
            -COORD_LIMIT <= x1 <= COORD_LIMIT,
            -COORD_LIMIT <= y1 <= COORD_LIMIT,
            -COORD_LIMIT <= x2 <= COORD_LIMIT,
            -COORD_LIMIT <= y2 <= COORD_LIMIT,
            -COORD_LIMIT <= x3 <= COORD_LIMIT,
            -COORD_LIMIT <= y3 <= COORD_LIMIT,
        ensures
            final(self).wf(),
            final(self).width == old(self).width,
            final(self).height == old(self).height,
            forall|xx: int, yy: int|
                old(self).in_bounds(xx, yy) ==> #[trigger] final(self).pix(xx, yy) == (if
                tri_covered(
                    x1 as int, y1 as int, x2 as int, y2 as int, x3 as int, y3 as int, xx, yy,
                ) {
                    col
                } else {
                    old(self).pix(xx, yy)
                }),
    {
        let (ax, ay, bx, by, cx, cy): (i32, i32, i32, i32, i32, i32) = if y1 <= y2 {
            if y2 <= y3 {
                (x1, y1, x2, y2, x3, y3)
            } else if y1 <= y3 {
                (x1, y1, x3, y3, x2, y2)
            } else {
                (x3, y3, x1, y1, x2, y2)
            }
        } else {
            if y1 <= y3 {
                (x2, y2, x1, y1, x3, y3)
            } else if y2 <= y3 {
                (x2, y2, x3, y3, x1, y1)
            } else {
                (x3, y3, x2, y2, x1, y1)
            }
        };
        proof {
            assert(sorted3((x1 as int, y1 as int), (x2 as int, y2 as int), (x3 as int, y3 as int))
                == ((ax as int, ay as int), (bx as int, by as int), (cx as int, cy as int)));
        }

        let mut y = ay;
        while y <= by
            invariant
                self.wf(),
                self.width == old(self).width,
                self.height == old(self).height,
                ay <= y,
                y <= by + 1,
                forall|xx: int, yy: int|
                    old(self).in_bounds(xx, yy) ==> #[trigger] self.pix(xx, yy) == (if ay <= yy
                        < y && between(
                        edge_x(ax as int, ay as int, bx as int, by as int, yy),
                        edge_x(ax as int, ay as int, cx as int, cy as int, yy),
                        xx,
                    ) {
                        col
                    } else {
                        old(self).pix(xx, yy)
                    }),
            decreases by + 1 - y,
        {
            let xa = edge_x_exec(ax, ay, bx, by, y);
            let xb = edge_x_exec(ax, ay, cx, cy, y);
            self.fill_line(xa, xb, y, col);
            y += 1;
        }
        let mut y = by;
        while y <= cy
            invariant
                self.wf(),
                self.width == old(self).width,
                self.height == old(self).height,
                by <= y,
                y <= cy + 1,
                forall|xx: int, yy: int|
                    old(self).in_bounds(xx, yy) ==> #[trigger] self.pix(xx, yy) == (if (ay <= yy
                        <= by && between(
                        edge_x(ax as int, ay as int, bx as int, by as int, yy),
                        edge_x(ax as int, ay as int, cx as int, cy as int, yy),
                        xx,
                    )) || (by <= yy < y && between(
                        edge_x(bx as int, by as int, cx as int, cy as int, yy),
                        edge_x(ax as int, ay as int, cx as int, cy as int, yy),
                        xx,
                    )) {
                        col
                    } else {
                        old(self).pix(xx, yy)
                    }),
            decreases cy + 1 - y,
        {
            let xa = edge_x_exec(bx, by, cx, cy, y);
            let xb = edge_x_exec(ax, ay, cx, cy, y);
            self.fill_line(xa, xb, y, col);
            y += 1;
        }
    }

    /// Draws the triangle's outline: its three edges as Bresenham lines.
    pub fn draw_triangle(
        &mut self, x1: i32, y1: i32, x2: i32, y2: i32, x3: i32, y3: i32, col: u32,
    )
        requires
            old(self).wf(),
            -COORD_LIMIT <= x1 <= COORD_LIMIT,
            -COORD_LIMIT <= y1 <= COORD_LIMIT,
            -COORD_LIMIT <= x2 <= COORD_LIMIT,
            -COORD_LIMIT <= y2 <= COORD_LIMIT,
            -COORD_LIMIT <= x3 <= COORD_LIMIT,
            -COORD_LIMIT <= y3 <= COORD_LIMIT,
        ensures
            final(self).wf(),
            final(self).width == old(self).width,
            final(self).height == old(self).height,
            forall|xx: int, yy: int|
                old(self).in_bounds(xx, yy) ==> #[trigger] final(self).pix(xx, yy) == (if
                triangle_outline(
                    x1 as int, y1 as int, x2 as int, y2 as int, x3 as int, y3 as int,
                ).contains((xx, yy)) {
                    col
                } else {
                    old(self).pix(xx, yy)
                }),
    {
        self.draw_line(x1, y1, x2, y2, col);
        self.draw_line(x2, y2, x3, y3, col);
        let ghost mid = *self;
        self.draw_line(x3, y3, x1, y1, col);
        proof {
            let l1 = line_points(x1 as int, y1 as int, x2 as int, y2 as int);
            let l2 = line_points(x2 as int, y2 as int, x3 as int, y3 as int);
            let l3 = line_points(x3 as int, y3 as int, x1 as int, y1 as int);
            assert forall|xx: int, yy: int| old(self).in_bounds(xx, yy)
                implies #[trigger] self.pix(xx, yy) == (if (l1 + l2 + l3).contains((xx, yy)) {
                col
            } else {
                old(self).pix(xx, yy)
            }) by {
                lemma_contains_concat(l1 + l2, l3, (xx, yy));
                lemma_contains_concat(l1, l2, (xx, yy));
                assert(mid.pix(xx, yy) == (if l2.contains((xx, yy)) {
                    col
                } else if l1.contains((xx, yy)) {
                    col
                } else {
                    old(self).pix(xx, yy)
                }));
            }
        }
    }

    /// Draws the outline of the axis-aligned rectangle with corners
    /// `(x1, y1)` and `(x2, y2)`, as the two triangles that share its
    /// diagonal.
    pub fn draw_square(&mut self, x1: i32, y1: i32, x2: i32, y2: i32, cal: u32)
        requires
            old(self).wf(),
            -COORD_LIMIT <= x1 <= COORD_LIMIT,
            -COORD_LIMIT <= y1 <= COORD_LIMIT,
            -COORD_LIMIT <= x2 <= COORD_LIMIT,
            -COORD_LIMIT <= y2 <= COORD_LIMIT,
        ensures
            final(self).wf(),
            final(self).width == old(self).width,
            final(self).height == old(self).height,
            forall|xx: int, yy: int|
                old(self).in_bounds(xx, yy) ==> #[trigger] final(self).pix(xx, yy) == (if (
                triangle_outline(
                    x1 as int, y1 as int, x2 as int, y1 as int, x2 as int, y2 as int,
                ) + triangle_outline(
                    x1 as int, y1 as int, x1 as int, y2 as int, x2 as int, y2 as int,
                )).contains((xx, yy)) {
                    cal
                } else {
                    old(self).pix(xx, yy)
                }),
    {
        self.draw_triangle(x1, y1, x2, y1, x2, y2, cal);
        let ghost mid = *self;
        self.draw_triangle(x1, y1, x1, y2, x2, y2, cal);
        proof {
            let t1 = triangle_outline(
                x1 as int, y1 as int, x2 as int, y1 as int, x2 as int, y2 as int,
            );
            let t2 = triangle_outline(
                x1 as int, y1 as int, x1 as int, y2 as int, x2 as int, y2 as int,
            );
            assert forall|xx: int, yy: int| old(self).in_bounds(xx, yy)
                implies #[trigger] self.pix(xx, yy) == (if (t1 + t2).contains((xx, yy)) {
                cal
            } else {
                old(self).pix(xx, yy)
            }) by {
                lemma_contains_concat(t1, t2, (xx, yy));
                assert(mid.pix(xx, yy) == (if t1.contains((xx, yy)) {
                    cal
                } else {
                    old(self).pix(xx, yy)
                }));
            }
        }
    }
}


/// The pixels the midpoint circle walk still paints from state
/// `(x, y, p)`: eight mirrored pixels per step while `y >= x`, with the
/// decision variable `p` choosing whether `y` steps inward.
pub open spec fn circle_points(xc: int, yc: int, x: int, y: int, p: int) -> Seq<(int, int)>
    decreases y - x + 2,
{
    if y < x {
        Seq::empty()
    } else {
        let pts = seq![
            (xc + x, yc + y),
            (xc + y, yc + x),
            (xc - y, yc + x),
            (xc - x, yc + y),
            (xc - x, yc - y),
            (xc - y, yc - x),
            (xc + y, yc - x),
            (xc + x, yc - y),
        ];
        let y2 = if p < 0 { y } else { y - 1 };
        let p2 = if p < 0 { p + 4 * x + 6 } else { p + 4 * (x - (y - 1)) + 10 };
        pts + circle_points(xc, yc, x + 1, y2, p2)
    }
}

impl Drawer {
    /// Draws the circle of radius `r` around `(xc, yc)` by the integer
    /// midpoint walk, always in white (the walk ignores the current draw
    /// color, as it always has): exactly the pixels of `circle_points`
    /// are painted; a zero radius draws nothing.
    #[verifier::loop_isolation(false)]
    #[verifier::rlimit(100)]
    pub fn draw_circle(&mut self, xc: i32, yc: i32, r: i32)
        requires
            old(self).wf(),
            -COORD_LIMIT <= xc <= COORD_LIMIT,
            -COORD_LIMIT <= yc <= COORD_LIMIT,
            0 <= r <= 0x2000,
        ensures
            final(self).wf(),
            final(self).width == old(self).width,
            final(self).height == old(self).height,
            r == 0 ==> final(self).buffer@ == old(self).buffer@,
            r != 0 ==> forall|xx: int, yy: int|
                old(self).in_bounds(xx, yy) ==> #[trigger] final(self).pix(xx, yy) == (if
                circle_points(xc as int, yc as int, 0, r as int, 3 - 2 * r).contains((xx, yy)) {
                    0xffffffu32
                } else {
                    old(self).pix(xx, yy)
                }),
    {
        let mut x: i32 = 0;
        let mut y: i32 = r;
        let mut p: i32 = 3 - 2 * r;
        if r == 0 {
            return ;
        }

        let ghost all_pts = circle_points(xc as int, yc as int, 0, r as int, 3 - 2 * r);
        let ghost mut painted: Seq<(int, int)> = Seq::empty();

        while y >= x
            invariant
                self.wf(),
                self.width == old(self).width,
                self.height == old(self).height,
                0 <= x <= y + 2,
                y <= r,
                p as int == 2 * (x as int) * (x as int) + 4 * x + 2 * (y as int) * (y as int) - 6
                    * y + 3 + 4 * r - 2 * (r as int) * (r as int),
                painted + circle_points(xc as int, yc as int, x as int, y as int, p as int)
                    == all_pts,
                forall|xx: int, yy: int|
                    old(self).in_bounds(xx, yy) ==> #[trigger] self.pix(xx, yy) == (if
                    painted.contains((xx, yy)) {
                        0xffffffu32
                    } else {
                        old(self).pix(xx, yy)
                    }),
            decreases y - x + 2,
        {
            proof {
                assert(-0x6000_0000 <= p <= 0x6000_0000 && -0x6000_0000 <= p + 4 * x + 6
                    <= 0x6000_0000 && -0x6000_0000 <= p + 4 * (x - (y - 1)) + 10 <= 0x6000_0000)
                    by (nonlinear_arith)
                    requires
                        0 <= x <= y,
                        x <= 0x2000,
                        0 <= y <= r,
                        0 < r <= 0x2000,
                        p as int == 2 * (x as int) * (x as int) + 4 * x + 2 * (y as int) * (
                        y as int) - 6 * y + 3 + 4 * r - 2 * (r as int) * (r as int),
                ;
            }
            let ghost pre_pts = circle_points(
                xc as int, yc as int, x as int, y as int, p as int,
            );
            let ghost eight: Seq<(int, int)> = seq![
                ((xc + x) as int, (yc + y) as int),
                ((xc + y) as int, (yc + x) as int),
                ((xc - y) as int, (yc + x) as int),
                ((xc - x) as int, (yc + y) as int),
                ((xc - x) as int, (yc - y) as int),
                ((xc - y) as int, (yc - x) as int),
                ((xc + y) as int, (yc - x) as int),
                ((xc + x) as int, (yc - y) as int),
            ];
            let ghost p0 = *self;
            self.draw(xc + x, yc + y, 0xffffff);
            proof { lemma_draw_pointwise(p0, *self, (xc + x) as int, (yc + y) as int, 0xffffff); }
            let ghost p1 = *self;
            self.draw(xc + y, yc + x, 0xffffff);
            proof { lemma_draw_pointwise(p1, *self, (xc + y) as int, (yc + x) as int, 0xffffff); }
            let ghost p2s = *self;
            self.draw(xc - y, yc + x, 0xffffff);
            proof { lemma_draw_pointwise(p2s, *self, (xc - y) as int, (yc + x) as int, 0xffffff); }
            let ghost p3 = *self;
            self.draw(xc - x, yc + y, 0xffffff);
            proof { lemma_draw_pointwise(p3, *self, (xc - x) as int, (yc + y) as int, 0xffffff); }
            let ghost p4 = *self;
            self.draw(xc - x, yc - y, 0xffffff);
            proof { lemma_draw_pointwise(p4, *self, (xc - x) as int, (yc - y) as int, 0xffffff); }
            let ghost p5 = *self;
            self.draw(xc - y, yc - x, 0xffffff);
            proof { lemma_draw_pointwise(p5, *self, (xc - y) as int, (yc - x) as int, 0xffffff); }
            let ghost p6 = *self;
            self.draw(xc + y, yc - x, 0xffffff);
            proof { lemma_draw_pointwise(p6, *self, (xc + y) as int, (yc - x) as int, 0xffffff); }
            let ghost p7 = *self;
            self.draw(xc + x, yc - y, 0xffffff);
            proof {
                lemma_draw_pointwise(p7, *self, (xc + x) as int, (yc - y) as int, 0xffffff);
                assert forall|xx: int, yy: int| old(self).in_bounds(xx, yy)
                    implies #[trigger] self.pix(xx, yy) == (if (painted + eight).contains(
                    (xx, yy),
                ) {
                    0xffffffu32
                } else {
                    old(self).pix(xx, yy)
                }) by {
                    lemma_contains_concat(painted, eight, (xx, yy));
                    assert(eight.contains((xx, yy)) <==> ((xx, yy) == eight[0] || (xx, yy)
                        == eight[1] || (xx, yy) == eight[2] || (xx, yy) == eight[3] || (xx, yy)
                        == eight[4] || (xx, yy) == eight[5] || (xx, yy) == eight[6] || (xx, yy)
                        == eight[7])) by {
                        if eight.contains((xx, yy)) {
                            let i = choose|i: int|
                                0 <= i < eight.len() && eight[i] == (xx, yy);
                            assert(i == 0 || i == 1 || i == 2 || i == 3 || i == 4 || i == 5 || i
                                == 6 || i == 7);
                        }
                    }
                }
                painted = painted + eight;
            }
            proof {
                let gx = x as int;
                let gy = y as int;
                let gp = p as int;
                let gr = r as int;
                let ny_: int = if gp < 0 { gy } else { gy - 1 };
                let np_: int = if gp < 0 { gp + 4 * gx + 6 } else { gp + 4 * (gx - (gy - 1)) + 10 };
                assert(np_ == 2 * (gx + 1) * (gx + 1) + 4 * (gx + 1) + 2 * ny_ * ny_ - 6 * ny_ + 3
                    + 4 * gr - 2 * gr * gr) by (nonlinear_arith)
                    requires
                        gp == 2 * gx * gx + 4 * gx + 2 * gy * gy - 6 * gy + 3 + 4 * gr - 2 * gr
                            * gr,
                        ny_ == (if gp < 0 { gy } else { gy - 1 }),
                        np_ == (if gp < 0 { gp + 4 * gx + 6 } else { gp + 4 * (gx - (gy - 1)) + 10 }),
                ;
                assert(pre_pts == eight + circle_points(xc as int, yc as int, gx + 1, ny_, np_));
            }
            if p < 0 {
                p += 4 * x + 6;
            } else {
                y -= 1;
                p += 4 * (x - y) + 10;
            }
            x += 1;
            proof {
                assert(painted + circle_points(
                    xc as int, yc as int, x as int, y as int, p as int,
                ) =~= all_pts);
            }
        }
        proof {
            assert(painted =~= all_pts);
        }
    }
}


/// The pixel column of a homogeneous point: its rational x coordinate
/// truncated toward zero, as an integer cast of the quotient truncates.
pub open spec fn pixel_x(v: GVec4) -> int {
    trunc_div(v.x, v.w)
}

/// The pixel row of a homogeneous point.
pub open spec fn pixel_y(v: GVec4) -> int {
    trunc_div(v.y, v.w)
}

/// Truncates a homogeneous point to its pixel coordinates.
fn to_pixel(v: &Vector4) -> (r: (i32, i32))
    requires
        wf_vec(v@),
        vec_vbound(v@, COORD_LIMIT as int),
    ensures
        r.0 == pixel_x(v@),
        r.1 == pixel_y(v@),
        -COORD_LIMIT <= r.0 <= COORD_LIMIT,
        -COORD_LIMIT <= r.1 <= COORD_LIMIT,
{
    proof {
        lemma_trunc_div_in_box(v@.x, v@.w, COORD_LIMIT as int);
        lemma_trunc_div_in_box(v@.y, v@.w, COORD_LIMIT as int);
    }
    let px = v.x.checked_div(v.w).unwrap();
    let py = v.y.checked_div(v.w).unwrap();
    (px as i32, py as i32)
}

impl Drawer {
    /// Fills a triangle given with homogeneous vertices: each vertex is
    /// truncated to its pixel position and the scanline fill runs on
    /// those, in the triangle's own flat color.
    pub fn fill_triangle_from(&mut self, tri: Triangle)
        requires
            old(self).wf(),
            gtri_wf(tri@),
            gtri_vbound(tri@, COORD_LIMIT as int),
        ensures
            final(self).wf(),
            final(self).width == old(self).width,
            final(self).height == old(self).height,
            forall|xx: int, yy: int|
                old(self).in_bounds(xx, yy) ==> #[trigger] final(self).pix(xx, yy) == (if
                tri_covered(
                    pixel_x(tri@.p0), pixel_y(tri@.p0),
                    pixel_x(tri@.p1), pixel_y(tri@.p1),
                    pixel_x(tri@.p2), pixel_y(tri@.p2),
                    xx, yy,
                ) {
                    tri.color
                } else {
                    old(self).pix(xx, yy)
                }),
    {
        let (x1, y1) = to_pixel(&tri.p[0]);
        let (x2, y2) = to_pixel(&tri.p[1]);
        let (x3, y3) = to_pixel(&tri.p[2]);
        self.fill_triangle(x1, y1, x2, y2, x3, y3, tri.color);
    }

    /// Draws the outline of a triangle given with homogeneous vertices,
    /// truncated to pixel positions the same way as the fill.
    pub fn draw_triangle_from(&mut self, tri: Triangle)
        requires
            old(self).wf(),
            gtri_wf(tri@),
            gtri_vbound(tri@, COORD_LIMIT as int),
        ensures
            final(self).wf(),
            final(self).width == old(self).width,
            final(self).height == old(self).height,
            forall|xx: int, yy: int|
                old(self).in_bounds(xx, yy) ==> #[trigger] final(self).pix(xx, yy) == (if
                triangle_outline(
                    pixel_x(tri@.p0), pixel_y(tri@.p0),
                    pixel_x(tri@.p1), pixel_y(tri@.p1),
                    pixel_x(tri@.p2), pixel_y(tri@.p2),
                ).contains((xx, yy)) {
                    tri.color
                } else {
                    old(self).pix(xx, yy)
                }),
    {
        let (x1, y1) = to_pixel(&tri.p[0]);
        let (x2, y2) = to_pixel(&tri.p[1]);
        let (x3, y3) = to_pixel(&tri.p[2]);
        self.draw_triangle(x1, y1, x2, y2, x3, y3, tri.color);
    }
}


} // verus!
