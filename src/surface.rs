use vstd::prelude::*;

verus! {

/// Column of the pixel that byte `k` belongs to, on a surface `w` pixels wide.
pub open spec fn pixel_x(w: int, k: int) -> int {
    (k / 4) % w
}

/// Row of the pixel that byte `k` belongs to, on a surface `w` pixels wide.
pub open spec fn pixel_y(w: int, k: int) -> int {
    (k / 4) / w
}

/// `(px, py)` lies in the `w` by `h` box whose top-left corner is `(x, y)`.
pub open spec fn in_box(px: int, py: int, x: int, y: int, w: int, h: int) -> bool {
    x <= px < x + w && y <= py < y + h
}

/// A mutable RGBA pixel buffer: row-major, four bytes per pixel.
pub struct Surface {
    pub width: u32,
    pub height: u32,
    pub pixels: Vec<u8>,
}

/// A square or rectangular RGBA bitmap, row-major, four bytes per pixel.
pub struct Sprite {
    pub width: u32,
    pub height: u32,
    pub data: Vec<u8>,
}

impl Surface {
    pub open spec fn wf(&self) -> bool {
        self.pixels@.len() == 4 * self.width * self.height
    }

    /// Byte `k` has not moved from `old` unless its pixel is in the box,
    /// where it holds `color`.
    pub open spec fn filled(
        self,
        old: Surface,
        x: int,
        y: int,
        w: int,
        h: int,
        color: [u8; 4],
    ) -> bool {
        &&& self.width == old.width
        &&& self.height == old.height
        &&& self.pixels@.len() == old.pixels@.len()
        &&& forall|k: int|
            0 <= k < self.pixels@.len() ==> #[trigger] self.pixels@[k] == if in_box(
                pixel_x(self.width as int, k),
                pixel_y(self.width as int, k),
                x,
                y,
                w,
                h,
            ) {
                color@[k % 4]
            } else {
                old.pixels@[k]
            }
    }

    /// Byte `k` has not moved from `old` unless its pixel is covered by
    /// `s` placed with its top-left corner at `(x, y)`, where it holds the
    /// matching byte of `s`.
    pub open spec fn blitted(self, old: Surface, x: int, y: int, s: Sprite) -> bool {
        &&& self.width == old.width
        &&& self.height == old.height
        &&& self.pixels@.len() == old.pixels@.len()
        &&& forall|k: int|
            0 <= k < self.pixels@.len() ==> #[trigger] self.pixels@[k] == if in_box(
                pixel_x(self.width as int, k),
                pixel_y(self.width as int, k),
                x,
                y,
                s.width as int,
                s.height as int,
            ) {
                s.byte_at(
                    pixel_x(self.width as int, k) - x,
                    pixel_y(self.width as int, k) - y,
                    k % 4,
                )
            } else {
                old.pixels@[k]
            }
    }

    /// A surface of `width` by `height` pixels, all bytes zero; `None` when
    /// its byte count does not fit in memory indices.
    pub fn new(width: u32, height: u32) -> (r: Option<Surface>)
        ensures
            r is Some <==> 4 * width * height <= usize::MAX,
            r matches Some(s) ==> {
                &&& s.wf()
                &&& s.width == width
                &&& s.height == height
                &&& forall|k: int| 0 <= k < s.pixels@.len() ==> #[trigger] s.pixels@[k] == 0
            },
    {
        let n: u128 = byte_count(width, height);
        if n > usize::MAX as u128 {
            return None;
        }
        let n = n as usize;
        let mut pixels: Vec<u8> = Vec::new();
        let mut i: usize = 0;
        while i < n
            invariant
                i <= n,
                pixels@.len() == i,
                forall|k: int| 0 <= k < i ==> #[trigger] pixels@[k] == 0,
            decreases n - i,
        {
            pixels.push(0);
            i = i + 1;
        }
        Some(Surface { width, height, pixels })
    }

    /// The four bytes of pixel `(x, y)`.
    pub fn pixel(&self, x: u32, y: u32) -> (r: [u8; 4])
        requires
            self.wf(),
            x < self.width,
            y < self.height,
        ensures
            forall|c: int|
                0 <= c < 4 ==> #[trigger] r@[c] == self.pixels@[4 * (y * self.width + x) + c],
    {
        let _n = self.pixels.len();
        proof {
            lemma_pixel_in_range(self.width as int, self.height as int, x as int, y as int);
        }
        let b = 4 * (y as usize * self.width as usize + x as usize);
        [self.pixels[b], self.pixels[b + 1], self.pixels[b + 2], self.pixels[b + 3]]
    }

    /// Writes `color` to pixel `(x, y)`.
    fn put_pixel(&mut self, x: u32, y: u32, color: [u8; 4])
        requires
            old(self).wf(),
            x < old(self).width,
            y < old(self).height,
        ensures
            final(self).wf(),
            final(self).width == old(self).width,
            final(self).height == old(self).height,
            forall|k: int|
                0 <= k < final(self).pixels@.len() ==> #[trigger] final(self).pixels@[k] == if k / 4
                    == y * old(self).width + x {
                    color@[k % 4]
                } else {
                    old(self).pixels@[k]
                },
    {
        let _n = self.pixels.len();
        proof {
            lemma_pixel_in_range(self.width as int, self.height as int, x as int, y as int);
        }
        let b = 4 * (y as usize * self.width as usize + x as usize);
        self.pixels.set(b, color[0]);
        self.pixels.set(b + 1, color[1]);
        self.pixels.set(b + 2, color[2]);
        self.pixels.set(b + 3, color[3]);
    }
}

impl Sprite {
    pub open spec fn wf(&self) -> bool {
        self.data@.len() == 4 * self.width * self.height
    }

    /// Channel `c` of pixel `(i, j)`.
    pub open spec fn byte_at(self, i: int, j: int, c: int) -> u8 {
        self.data@[4 * (j * self.width + i) + c]
    }

    /// A sprite over `data`; `None` unless it holds exactly four bytes per
    /// pixel.
    pub fn new(width: u32, height: u32, data: Vec<u8>) -> (r: Option<Sprite>)
        ensures
            r is Some <==> data@.len() == 4 * width * height,
            r matches Some(s) ==> s.wf() && s.width == width && s.height == height && s.data@
                == data@,
    {
        let n: u128 = byte_count(width, height);
        if data.len() as u128 == n {
            Some(Sprite { width, height, data })
        } else {
            None
        }
    }
}

/// Bytes needed for `width` by `height` pixels.
fn byte_count(width: u32, height: u32) -> (n: u128)
    ensures
        n == 4 * width * height,
{
    let w = width as u128;
    let h = height as u128;
    assert(4 * w * h <= 4 * 0xffff_ffffu128 * 0xffff_ffffu128) by (nonlinear_arith)
        requires
            w <= 0xffff_ffff,
            h <= 0xffff_ffff,
    ;
    4 * w * h
}

/// Pixel `(x, y)` of a `w` by `h` surface starts at byte `4 * (y * w + x)`,
/// and its four bytes lie inside the buffer.
pub proof fn lemma_pixel_in_range(w: int, h: int, x: int, y: int)
    requires
        0 <= x < w,
        0 <= y < h,
    ensures
        0 <= y * w + x < w * h,
        4 * (y * w + x) + 4 <= 4 * w * h,
{
    assert(0 <= y * w + x < w * h) by (nonlinear_arith)
        requires
            0 <= x < w,
            0 <= y < h,
    ;
    assert(4 * w * h == 4 * (w * h)) by (nonlinear_arith);
}

/// Byte `k` of a `w` by `h` surface belongs to the pixel in column
/// `pixel_x(w, k)` and row `pixel_y(w, k)`, which lie on the surface, and
/// that pixel is `(x, y)` exactly when `k / 4 == y * w + x`.
pub proof fn lemma_byte_pixel(w: int, h: int, k: int, x: int, y: int)
    requires
        w >= 0,
        h >= 0,
        0 <= k < 4 * w * h,
        0 <= x,
        0 <= y,
    ensures
        0 <= pixel_x(w, k) < w,
        0 <= pixel_y(w, k) < h,
        x < w ==> (k / 4 == y * w + x <==> (pixel_x(w, k) == x && pixel_y(w, k) == y)),
{
    let q = k / 4;
    assert(w > 0) by (nonlinear_arith)
        requires
            w >= 0,
            h >= 0,
            0 <= k < 4 * w * h,
    ;
    assert(4 * w * h == 4 * (w * h)) by (nonlinear_arith);
    assert(q < w * h);
    vstd::arithmetic::div_mod::lemma_multiply_divide_lt(q, w, h);
    assert(w * h == h * w) by (nonlinear_arith);
    vstd::arithmetic::div_mod::lemma_fundamental_div_mod(q, w);
    if q == y * w + x && x < w {
        vstd::arithmetic::div_mod::lemma_fundamental_div_mod_converse(q, w, y, x);
    }
    if pixel_x(w, k) == x && pixel_y(w, k) == y {
        assert(q == w * (q / w) + q % w);
        assert(w * y == y * w) by (nonlinear_arith);
    }
}

/// `min(start, limit)`: where a span that begins at `start` enters `[0, limit)`.
fn clip_start(start: u64, limit: u32) -> (r: u32)
    ensures
        r == if start < limit { start } else { limit as u64 },
{
    if start < limit as u64 {
        start as u32
    } else {
        limit
    }
}

/// `min(start + len, limit)`: where a span of `len` from `start` leaves
/// `[0, limit)`.
fn clip_end(start: u64, len: u64, limit: u32) -> (r: u32)
    ensures
        r == if start + len < limit { start + len } else { limit as int },
{
    if start >= limit as u64 || len >= limit as u64 - start {
        limit
    } else {
        (start + len) as u32
    }
}

/// Fills the `width` by `height` box at `(x, y)` with `color`; the part of
/// the box that lies off the surface is skipped.
pub fn rect(x: u64, y: u64, width: u64, height: u64, color: &[u8; 4], frame: &mut Surface)
    requires
        old(frame).wf(),
    ensures
        final(frame).wf(),
        final(frame).filled(*old(frame), x as int, y as int, width as int, height as int, *color),
{
    let ghost before = *frame;
    let w = frame.width;
    let h = frame.height;
    let xs = clip_start(x, w);
    let xe = clip_end(x, width, w);
    let ys = clip_start(y, h);
    let ye = clip_end(y, height, h);
    let mut j = ys;
    while j < ye
        invariant
            frame.wf(),
            frame.width == w,
            frame.height == h,
            frame.pixels@.len() == before.pixels@.len(),
            before.width == w,
            before.height == h,
            ys <= j <= ye <= h,
            xs <= xe <= w,
            forall|k: int|
                0 <= k < frame.pixels@.len() ==> #[trigger] frame.pixels@[k] == if xs <= pixel_x(
                    w as int,
                    k,
                ) < xe && ys <= pixel_y(w as int, k) < j {
                    color@[k % 4]
                } else {
                    before.pixels@[k]
                },
        decreases ye - j,
    {
        let mut i = xs;
        while i < xe
            invariant
                frame.wf(),
                frame.width == w,
                frame.height == h,
                frame.pixels@.len() == before.pixels@.len(),
                ys <= j < ye <= h,
                xs <= i <= xe <= w,
                forall|k: int|
                    0 <= k < frame.pixels@.len() ==> #[trigger] frame.pixels@[k] == if (xs
                        <= pixel_x(w as int, k) < xe && ys <= pixel_y(w as int, k) < j) || (
                    pixel_y(w as int, k) == j && xs <= pixel_x(w as int, k) < i) {
                        color@[k % 4]
                    } else {
                        before.pixels@[k]
                    },
            decreases xe - i,
        {
            frame.put_pixel(i, j, *color);
            proof {
                assert forall|k: int| 0 <= k < frame.pixels@.len() implies #[trigger] frame.pixels@[k]
                    == if (xs <= pixel_x(w as int, k) < xe && ys <= pixel_y(w as int, k) < j) || (
                pixel_y(w as int, k) == j && xs <= pixel_x(w as int, k) < i + 1) {
                    color@[k % 4]
                } else {
                    before.pixels@[k]
                } by {
                    lemma_byte_pixel(w as int, h as int, k, i as int, j as int);
                }
            }
            i = i + 1;
        }
        j = j + 1;
    }
    proof {
        assert forall|k: int| 0 <= k < frame.pixels@.len() implies #[trigger] frame.pixels@[k]
            == if in_box(
            pixel_x(w as int, k),
            pixel_y(w as int, k),
            x as int,
            y as int,
            width as int,
            height as int,
        ) {
            color@[k % 4]
        } else {
            before.pixels@[k]
        } by {
            lemma_byte_pixel(w as int, h as int, k, 0, 0);
        }
    }
}

/// Copies `image` onto the surface with its top-left corner at `(x, y)`,
/// overwriting what was there; pixels that fall off the surface are skipped.
pub fn img(x: u64, y: u64, image: &Sprite, frame: &mut Surface)
    requires
        old(frame).wf(),
        image.wf(),
    ensures
        final(frame).wf(),
        final(frame).blitted(*old(frame), x as int, y as int, *image),
{
    let ghost before = *frame;
    let w = frame.width;
    let h = frame.height;
    let sw = image.width;
    let _n = image.data.len();
    let xs = clip_start(x, w);
    let xe = clip_end(x, image.width as u64, w);
    let ys = clip_start(y, h);
    let ye = clip_end(y, image.height as u64, h);
    let mut j = ys;
    while j < ye
        invariant
            frame.wf(),
            image.wf(),
            sw == image.width,
            frame.width == w,
            frame.height == h,
            frame.pixels@.len() == before.pixels@.len(),
            before.width == w,
            before.height == h,
            ys <= j <= ye <= h,
            xs <= xe <= w,
            ys < ye ==> ys == y,
            xs < xe ==> xs == x,
            ye <= y + image.height,
            xe <= x + image.width,
            image.data@.len() <= usize::MAX,
            forall|k: int|
                0 <= k < frame.pixels@.len() ==> #[trigger] frame.pixels@[k] == if xs <= pixel_x(
                    w as int,
                    k,
                ) < xe && ys <= pixel_y(w as int, k) < j {
                    image.byte_at(pixel_x(w as int, k) - x, pixel_y(w as int, k) - y, k % 4)
                } else {
                    before.pixels@[k]
                },
        decreases ye - j,
    {
        let mut i = xs;
        while i < xe
            invariant
                frame.wf(),
                image.wf(),
                sw == image.width,
                frame.width == w,
                frame.height == h,
                frame.pixels@.len() == before.pixels@.len(),
                ys <= j < ye <= h,
                xs <= i <= xe <= w,
                ys == y,
                xs < xe ==> xs == x,
                ye <= y + image.height,
                xe <= x + image.width,
                image.data@.len() <= usize::MAX,
                forall|k: int|
                    0 <= k < frame.pixels@.len() ==> #[trigger] frame.pixels@[k] == if (xs
                        <= pixel_x(w as int, k) < xe && ys <= pixel_y(w as int, k) < j) || (
                    pixel_y(w as int, k) == j && xs <= pixel_x(w as int, k) < i) {
                        image.byte_at(pixel_x(w as int, k) - x, pixel_y(w as int, k) - y, k % 4)
                    } else {
                        before.pixels@[k]
                    },
            decreases xe - i,
        {
            let si = (i as u64 - x) as usize;
            let sj = (j as u64 - y) as usize;
            proof {
                lemma_pixel_in_range(sw as int, image.height as int, si as int, sj as int);
            }
            let b = 4 * (sj * sw as usize + si);
            let color = [image.data[b], image.data[b + 1], image.data[b + 2], image.data[b + 3]];
            frame.put_pixel(i, j, color);
            proof {
                assert forall|k: int| 0 <= k < frame.pixels@.len() implies #[trigger] frame.pixels@[k]
                    == if (xs <= pixel_x(w as int, k) < xe && ys <= pixel_y(w as int, k) < j) || (
                pixel_y(w as int, k) == j && xs <= pixel_x(w as int, k) < i + 1) {
                    image.byte_at(pixel_x(w as int, k) - x, pixel_y(w as int, k) - y, k % 4)
                } else {
                    before.pixels@[k]
                } by {
                    lemma_byte_pixel(w as int, h as int, k, i as int, j as int);
                    if k / 4 == j * w + i {
                        let c = k % 4;
                        assert(0 <= c < 4);
                        assert(color@[c] == image.data@[b + c]);
                    }
                }
            }
            i = i + 1;
        }
        j = j + 1;
    }
    proof {
        assert forall|k: int| 0 <= k < frame.pixels@.len() implies #[trigger] frame.pixels@[k]
            == if in_box(
            pixel_x(w as int, k),
            pixel_y(w as int, k),
            x as int,
            y as int,
            image.width as int,
            image.height as int,
        ) {
            image.byte_at(pixel_x(w as int, k) - x, pixel_y(w as int, k) - y, k % 4)
        } else {
            before.pixels@[k]
        } by {
            lemma_byte_pixel(w as int, h as int, k, 0, 0);
        }
    }
}

/// Fills the whole surface with `color`.
pub fn clear(frame: &mut Surface, color: &[u8; 4])
    requires
        old(frame).wf(),
    ensures
        final(frame).wf(),
        final(frame).width == old(frame).width,
        final(frame).height == old(frame).height,
        final(frame).pixels@.len() == old(frame).pixels@.len(),
        forall|k: int| 0 <= k < final(frame).pixels@.len() ==> #[trigger] final(frame).pixels@[k] == color@[k % 4],
{
    let w = frame.width;
    let h = frame.height;
    rect(0, 0, w as u64, h as u64, color, frame);
    proof {
        assert forall|k: int| 0 <= k < frame.pixels@.len() implies #[trigger] frame.pixels@[k]
            == color@[k % 4] by {
            lemma_byte_pixel(w as int, h as int, k, 0, 0);
        }
    }
}

} // verus!
