use vstd::prelude::*;

verus! {

/// Thickness of the separator lines, in pixels.
pub const STROKE_WIDTH: u32 = 3;

/// The shorter side of a `w` by `h` surface.
pub open spec fn short_side(w: int, h: int) -> int {
    if w < h {
        w
    } else {
        h
    }
}

/// The drawn region's edge, `0.9 * short_side`, in tenths of a pixel.
pub open spec fn span_of(w: int, h: int) -> int {
    9 * short_side(w, h)
}

/// The drawn region's edge rounded to whole pixels.
pub open spec fn total_width_of(w: int, h: int) -> int {
    (span_of(w, h) + 5) / 10
}

/// Distance from one cell's start to the next: the region's edge divided
/// by `size`, rounded to whole pixels.
pub open spec fn pitch_of(w: int, h: int, size: int) -> int {
    (span_of(w, h) + 5 * size) / (10 * size)
}

/// Where a region of edge `span_of(w, h) / 10` starts when centred on an
/// axis of `extent` pixels: `extent / 2 - span / 20`, rounded, and never
/// before the surface's first pixel.
pub open spec fn origin_of(extent: int, w: int, h: int) -> int {
    let twice = 20 * (extent / 2) + 10 - span_of(w, h);
    if twice >= 0 {
        twice / 20
    } else {
        0
    }
}

/// The cell along one axis that pixel `p` falls in: the fraction of the
/// region's edge that lies between the origin `o` and `p`, times `size`,
/// rounded down and held to `[0, size - 1]`.
pub open spec fn cell_along(p: int, o: int, span: int, size: int) -> int {
    if p <= o {
        0
    } else if 10 * size * (p - o) / span < size - 1 {
        10 * size * (p - o) / span
    } else {
        size - 1
    }
}

/// The fixed layout of the board on a surface.
pub struct Geometry {
    pub width: u32,
    pub height: u32,
    /// Cells per axis.
    pub size: usize,
    /// Edge of the drawn region in tenths of a pixel.
    pub span_tenths: u64,
    /// Edge of the drawn region in whole pixels.
    pub total_width: u32,
    pub square_size: u32,
    pub stroke_width: u32,
    pub origin_x: u32,
    pub origin_y: u32,
}

impl Geometry {
    /// The fields are those that `compute_geometry` derives from the
    /// surface's extent and the size.
    pub open spec fn wf(self) -> bool {
        let w = self.width as int;
        let h = self.height as int;
        let m = short_side(w, h);
        &&& 1 <= self.size <= m
        &&& self.span_tenths == span_of(w, h)
        &&& self.total_width == total_width_of(w, h)
        &&& self.stroke_width == STROKE_WIDTH
        &&& pitch_of(w, h, self.size as int) >= STROKE_WIDTH
        &&& self.square_size == pitch_of(w, h, self.size as int) - STROKE_WIDTH
        &&& self.origin_x == origin_of(w, w, h)
        &&& self.origin_y == origin_of(h, w, h)
        &&& self.offset() * self.size <= 2 * m
    }

    /// Distance from one cell's start to the next.
    pub open spec fn offset(self) -> int {
        self.square_size + self.stroke_width
    }

    /// The column `pixel_to_cell` gives for `px`.
    pub open spec fn cell_x(self, px: int) -> int {
        cell_along(px, self.origin_x as int, self.span_tenths as int, self.size as int)
    }

    /// The row `pixel_to_cell` gives for `py`.
    pub open spec fn cell_y(self, py: int) -> int {
        cell_along(py, self.origin_y as int, self.span_tenths as int, self.size as int)
    }

    /// Top-left pixel of the drawable interior of cell `c` along an axis
    /// that starts at `o`.
    pub open spec fn cell_start(self, o: int, c: int) -> int {
        o + self.stroke_width + self.offset() * c
    }

    /// `(px, py)` lies on the horizontal or the vertical separator `i`.
    pub open spec fn on_line(self, i: int, px: int, py: int) -> bool {
        let ox = self.origin_x as int;
        let oy = self.origin_y as int;
        let tw = self.total_width as int;
        let sw = self.stroke_width as int;
        ||| (ox <= px < ox + tw && oy + self.offset() * i <= py < oy + self.offset() * i + sw)
        ||| (ox + self.offset() * i <= px < ox + self.offset() * i + sw && oy <= py < oy + tw)
    }

    /// `(px, py)` lies on one of the separators `1 .. n`.
    pub open spec fn on_lines(self, n: int, px: int, py: int) -> bool
        decreases n,
    {
        if n <= 1 {
            false
        } else {
            self.on_lines(n - 1, px, py) || self.on_line(n - 1, px, py)
        }
    }

    /// `(px, py)` lies on the grid: on one of the separators `1 .. size`.
    pub open spec fn on_grid(self, px: int, py: int) -> bool {
        self.on_lines(self.size as int, px, py)
    }

    /// Along an axis that starts at `o`, pixel `p` lies in the interior of
    /// cell `(p - o - stroke) / offset`, at `(p - o - stroke) % offset`
    /// from its start, when that is below the square's edge.
    pub open spec fn inside_along(self, p: int, o: int) -> bool {
        let d = p - o - self.stroke_width;
        &&& d >= 0
        &&& d % self.offset() < self.square_size
        &&& d / self.offset() < self.size
    }

    pub open spec fn cell_index_along(self, p: int, o: int) -> int {
        (p - o - self.stroke_width) / self.offset()
    }

    pub open spec fn within_along(self, p: int, o: int) -> int {
        (p - o - self.stroke_width) % self.offset()
    }

    /// `(px, py)` lies in the interior of some cell.
    pub open spec fn inside(self, px: int, py: int) -> bool {
        self.inside_along(px, self.origin_x as int) && self.inside_along(py, self.origin_y as int)
    }

    /// The layout of a `size`-cell board on a `width` by `height` surface:
    /// the region's edge is nine tenths of the shorter side, and it is
    /// centred on both axes. `None` when `size` is zero or when the cell
    /// pitch would be narrower than a separator, which would give the
    /// cells a negative edge; an edge of zero is allowed.
    pub fn compute_geometry(width: u32, height: u32, size: usize) -> (r: Option<Geometry>)
        ensures
            r is Some <==> size >= 1 && pitch_of(width as int, height as int, size as int)
                >= STROKE_WIDTH,
            r matches Some(g) ==> g.wf() && g.width == width && g.height == height && g.size
                == size,
    {
        let m: u64 = if width < height {
            width as u64
        } else {
            height as u64
        };
        if size == 0 {
            return None;
        }
        if size as u128 > m as u128 {
            proof {
                let s = size as int;
                let a = 9 * m + 5 * s;
                assert(a < (10 * s) * 2) by (nonlinear_arith)
                    requires
                        m < s,
                        a == 9 * m + 5 * s,
                ;
                vstd::arithmetic::div_mod::lemma_multiply_divide_lt(a, 10 * s, 2);
            }
            return None;
        }
        let s = size as u64;
        let span: u64 = 9 * m;
        let pitch: u64 = (span + 5 * s) / (10 * s);
        if pitch < STROKE_WIDTH as u64 {
            return None;
        }
        proof {
            let a = span + 5 * s;
            let b = 10 * s;
            vstd::arithmetic::div_mod::lemma_fundamental_div_mod(a as int, b as int);
            assert(pitch * s <= 2 * m) by (nonlinear_arith)
                requires
                    pitch == a / b,
                    b * (a / b) + a % b == a,
                    a % b >= 0,
                    a == 9 * m + 5 * s,
                    b == 10 * s,
                    s <= m,
                    s >= 1,
            ;
            assert(s * (10 * pitch - 5) <= 9 * m) by (nonlinear_arith)
                requires
                    b * pitch <= a,
                    a == 9 * m + 5 * s,
                    b == 10 * s,
            ;
            assert(10 * pitch - 5 <= 9 * m) by (nonlinear_arith)
                requires
                    s * (10 * pitch - 5) <= 9 * m,
                    s >= 1,
                    pitch >= 1,
            ;
        }
        assert((span + 5) / 10 <= 0xffff_ffff);
        let total_width = ((span + 5) / 10) as u32;
        let ox: u64 = 20 * (width as u64 / 2) + 10;
        let origin_x: u32 = if ox >= span {
            ((ox - span) / 20) as u32
        } else {
            0
        };
        let oy: u64 = 20 * (height as u64 / 2) + 10;
        let origin_y: u32 = if oy >= span {
            ((oy - span) / 20) as u32
        } else {
            0
        };
        let g = Geometry {
                width,
                height,
                size,
                span_tenths: span,
                total_width,
                square_size: (pitch - STROKE_WIDTH as u64) as u32,
                stroke_width: STROKE_WIDTH,
                origin_x,
                origin_y,
            };
        Some(g)
    }

    /// The cell that pixel `(px, py)` falls in. Pixels before the region
    /// give the first cell and pixels at or past its far edge give the
    /// last: every pixel resolves to a cell.
    pub fn pixel_to_cell(&self, px: u32, py: u32) -> (r: (usize, usize))
        requires
            self.wf(),
        ensures
            r.0 == self.cell_x(px as int),
            r.1 == self.cell_y(py as int),
            r.0 < self.size,
            r.1 < self.size,
    {
        (
            Self::axis_cell(px, self.origin_x, self.span_tenths, self.size),
            Self::axis_cell(py, self.origin_y, self.span_tenths, self.size),
        )
    }

    fn axis_cell(p: u32, o: u32, span: u64, size: usize) -> (r: usize)
        requires
            1 <= size <= 0xffff_ffff,
            span >= 9,
            span <= 9 * 0xffff_ffffu64,
        ensures
            r == cell_along(p as int, o as int, span as int, size as int),
    {
        if p <= o {
            return 0;
        }
        let d = (p - o) as u128;
        let n = size as u128;
        assert(10 * n * d <= 10 * 0xffff_ffffu128 * 0xffff_ffffu128) by (nonlinear_arith)
            requires
                n <= 0xffff_ffff,
                d <= 0xffff_ffff,
        ;
        let q = 10 * n * d / span as u128;
        if q < n - 1 {
            q as usize
        } else {
            size - 1
        }
    }

    /// Top-left pixel of the drawable interior of cell `(x, y)`.
    pub fn cell_to_pixel(&self, x: usize, y: usize) -> (r: (u64, u64))
        requires
            self.wf(),
            x < self.size,
            y < self.size,
        ensures
            r.0 == self.cell_start(self.origin_x as int, x as int),
            r.1 == self.cell_start(self.origin_y as int, y as int),
    {
        let off = self.square_size as u64 + self.stroke_width as u64;
        proof {
            let m = short_side(self.width as int, self.height as int);
            assert(off * x <= 2 * m && off * y <= 2 * m) by (nonlinear_arith)
                requires
                    off * self.size <= 2 * m,
                    x < self.size,
                    y < self.size,
                    off >= 0,
            ;
        }
        (
            self.origin_x as u64 + self.stroke_width as u64 + off * x as u64,
            self.origin_y as u64 + self.stroke_width as u64 + off * y as u64,
        )
    }
}

/// Clicks resolve monotonically along each axis, always to a cell on the
/// board, and any pixel at or past the region's far edge resolves to the
/// last cell.
pub proof fn lemma_pixel_to_cell_monotonic(g: Geometry, p1: int, p2: int)
    requires
        g.wf(),
        p1 <= p2,
    ensures
        g.cell_x(p1) <= g.cell_x(p2),
        g.cell_y(p1) <= g.cell_y(p2),
        0 <= g.cell_x(p1) < g.size,
        0 <= g.cell_y(p1) < g.size,
        10 * (p1 - g.origin_x) >= g.span_tenths ==> g.cell_x(p1) == g.size - 1,
        10 * (p1 - g.origin_y) >= g.span_tenths ==> g.cell_y(p1) == g.size - 1,
{
    lemma_cell_along(p1, p2, g.origin_x as int, g.span_tenths as int, g.size as int);
    lemma_cell_along(p1, p2, g.origin_y as int, g.span_tenths as int, g.size as int);
}

/// Along an axis that starts at `o`, pixel `p` lies in the drawable
/// interior of cell `c` exactly when the cell lookup gives `c`, and then
/// its distance from the interior's corner is the lookup's remainder.
pub proof fn lemma_cell_box(g: Geometry, p: int, o: int, c: int)
    requires
        g.wf(),
        0 <= c < g.size,
    ensures
        (g.cell_start(o, c) <= p < g.cell_start(o, c) + g.square_size) <==> (g.inside_along(p, o)
            && g.cell_index_along(p, o) == c),
        g.inside_along(p, o) ==> 0 <= g.cell_index_along(p, o) < g.size && 0 <= g.within_along(
            p,
            o,
        ) < g.square_size,
        g.inside_along(p, o) && g.cell_index_along(p, o) == c ==> g.within_along(p, o) == p
            - g.cell_start(o, c),
{
    let off = g.offset();
    let d = p - o - g.stroke_width;
    if g.cell_start(o, c) <= p < g.cell_start(o, c) + g.square_size {
        let r = p - g.cell_start(o, c);
        assert(d == c * off + r) by (nonlinear_arith)
            requires
                d == p - o - g.stroke_width,
                r == p - (o + g.stroke_width + off * c),
        ;
        vstd::arithmetic::div_mod::lemma_fundamental_div_mod_converse(d, off, c, r);
        assert(d >= 0) by (nonlinear_arith)
            requires
                d == c * off + r,
                c >= 0,
                off >= 0,
                r >= 0,
        ;
    }
    if d >= 0 {
        vstd::arithmetic::div_mod::lemma_fundamental_div_mod(d, off);
        vstd::arithmetic::div_mod::lemma_div_pos_is_pos(d, off);
        if d / off == c {
            assert(off * c == c * off) by (nonlinear_arith);
        }
    }
}

proof fn lemma_cell_along(p1: int, p2: int, o: int, span: int, size: int)
    requires
        p1 <= p2,
        span > 0,
        size >= 1,
    ensures
        cell_along(p1, o, span, size) <= cell_along(p2, o, span, size),
        0 <= cell_along(p1, o, span, size) < size,
        10 * (p1 - o) >= span ==> cell_along(p1, o, span, size) == size - 1,
{
    if p1 > o {
        let a1 = 10 * size * (p1 - o);
        let a2 = 10 * size * (p2 - o);
        assert(0 <= a1 <= a2) by (nonlinear_arith)
            requires
                p1 > o,
                p1 <= p2,
                size >= 1,
                a1 == 10 * size * (p1 - o),
                a2 == 10 * size * (p2 - o),
        ;
        vstd::arithmetic::div_mod::lemma_div_is_ordered(a1, a2, span);
        vstd::arithmetic::div_mod::lemma_div_pos_is_pos(a1, span);
        if 10 * (p1 - o) >= span {
            assert(a1 >= size * span) by (nonlinear_arith)
                requires
                    10 * (p1 - o) >= span,
                    size >= 1,
                    a1 == 10 * size * (p1 - o),
            ;
            vstd::arithmetic::div_mod::lemma_div_multiples_vanish(size, span);
            vstd::arithmetic::div_mod::lemma_div_is_ordered(size * span, a1, span);
            assert(size * span == span * size) by (nonlinear_arith);
        }
    }
}

} // verus!
