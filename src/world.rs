use vstd::prelude::*;
use crate::board::{power, Board, Cell, IndexError, ShapeError};
use crate::geometry::{pitch_of, Geometry, STROKE_WIDTH};
use crate::surface::{clear, img, pixel_x, pixel_y, rect, Sprite, Surface};

verus! {

/// The bytes that `image::imageops::resize` with the triangle filter gives
/// for an RGBA image of `w` by `h` pixels scaled to `edge` by `edge`.
pub uninterp spec fn triangle_resized(data: Seq<u8>, w: u32, h: u32, edge: u32) -> Seq<u8>;

/// Relies on `rand::thread_rng` and `rand::Rng::gen_range`: a number drawn
/// from `0 .. n`, which must not be empty.
#[verifier::external_body]
fn random_below(n: usize) -> (r: usize)
    requires
        n > 0,
    ensures
        r < n,
{
    rand::Rng::gen_range(&mut rand::thread_rng(), 0..n)
}

/// Relies on `image::imageops::resize` with `FilterType::Triangle`: an
/// `edge` by `edge` RGBA image, four bytes per pixel. Both images are
/// small enough that `ImageBuffer::new` does not overflow.
#[verifier::external_body]
fn scale_sprite(s: &Sprite, edge: u32) -> (r: Sprite)
    requires
        s.wf(),
        s.width > 0,
        s.height > 0,
        4 * s.width * edge <= usize::MAX,
        4 * edge * edge <= usize::MAX,
    ensures
        r.wf(),
        r.width == edge,
        r.height == edge,
        r.data@ == triangle_resized(s.data@, s.width, s.height, edge),
{
    let src = image::RgbaImage::from_raw(s.width, s.height, s.data.clone()).expect(
        "four bytes per pixel",
    );
    let out = image::imageops::resize(&src, edge, edge, image::imageops::FilterType::Triangle);
    Sprite { width: edge, height: edge, data: out.into_raw() }
}

/// Why a world cannot be set up.
#[derive(Clone, Copy, Debug, PartialEq, Eq, Structural)]
pub enum SetupError {
    /// The board's shape is refused.
    Shape(ShapeError),
    /// The cell pitch on this surface is narrower than a separator.
    SurfaceTooSmall,
    /// A mark has no artwork.
    EmptyVariantPool,
    /// A source image is empty, too large, or not four bytes per pixel.
    BadSprite,
}

/// Colour of the cleared surface.
pub open spec fn background() -> Seq<u8> {
    seq![0xffu8, 0xff, 0xff, 0xff]
}

/// Colour of the separators.
pub open spec fn line_color() -> Seq<u8> {
    seq![0x00u8, 0x00, 0x00, 0xff]
}

fn white() -> (r: [u8; 4])
    ensures
        r@ == background(),
{
    let r = [0xffu8, 0xff, 0xff, 0xff];
    assert(r@ =~= background());
    r
}

fn black() -> (r: [u8; 4])
    ensures
        r@ == line_color(),
{
    let r = [0x00u8, 0x00, 0x00, 0xff];
    assert(r@ =~= line_color());
    r
}

/// A source image can be scaled to `edge`.
pub open spec fn usable_source(s: Sprite, edge: u32) -> bool {
    &&& s.wf()
    &&& s.width > 0
    &&& s.height > 0
    &&& 4 * s.width * edge <= usize::MAX
}

/// `size^dimension` cells can be made.
pub open spec fn shape_ok(size: usize, dimension: usize) -> bool {
    size >= 1 && dimension >= 1 && power(size as nat, dimension as nat) <= usize::MAX
}

/// A `size`-cell board fits on a `width` by `height` surface.
pub open spec fn layout_ok(width: u32, height: u32, size: usize) -> bool {
    size >= 1 && pitch_of(width as int, height as int, size as int) >= STROKE_WIDTH
}

/// The cells' edge on such a surface.
pub open spec fn edge_of(width: u32, height: u32, size: usize) -> u32 {
    (pitch_of(width as int, height as int, size as int) - STROKE_WIDTH) as u32
}

/// Every source can be scaled to `edge`, and images of that edge fit.
pub open spec fn pool_ok(sources: Seq<Sprite>, edge: u32) -> bool {
    &&& 4 * edge * edge <= usize::MAX
    &&& forall|i: int| 0 <= i < sources.len() ==> usable_source(#[trigger] sources[i], edge)
}

/// The board, its layout on the surface, and the artwork of each mark.
pub struct World {
    pub board: Board,
    pub geometry: Geometry,
    pub x_img: Vec<Sprite>,
    pub o_img: Vec<Sprite>,
}

impl World {
    pub open spec fn wf(&self) -> bool {
        &&& self.board@.wf()
        &&& self.geometry.wf()
        &&& self.geometry.size == self.board.size
        &&& self.x_img@.len() > 0
        &&& self.o_img@.len() > 0
        &&& forall|i: int| 0 <= i < self.x_img@.len() ==> self.fits(#[trigger] self.x_img@[i])
        &&& forall|i: int| 0 <= i < self.o_img@.len() ==> self.fits(#[trigger] self.o_img@[i])
    }

    /// `s` is a well-formed square of the cells' edge.
    pub open spec fn fits(&self, s: Sprite) -> bool {
        &&& s.wf()
        &&& s.width == self.geometry.square_size
        &&& s.height == self.geometry.square_size
    }

    /// The pool of artwork for `c`, which is not `Empty`.
    pub open spec fn pool(&self, c: Cell) -> Seq<Sprite> {
        if c == Cell::X {
            self.x_img@
        } else {
            self.o_img@
        }
    }

    /// One variant per cell, each inside the pool of that cell's mark.
    pub open spec fn valid_choices(&self, choices: Seq<usize>) -> bool {
        &&& choices.len() == self.board@.cells.len()
        &&& forall|i: int|
            0 <= i < choices.len() && self.board@.cells[i] != Cell::Empty ==> #[trigger] choices[i]
                < self.pool(self.board@.cells[i]).len()
    }

    /// The flat offset of cell `(cx, cy)` of a two-dimensional board.
    pub open spec fn flat(&self, cx: int, cy: int) -> int {
        cx + self.board.size * cy
    }

    /// Cell `(cx, cy)` holds a mark and is among those drawn so far: rows
    /// before `y`, and in row `y` the columns before `x`.
    pub open spec fn drawn(&self, cx: int, cy: int, x: int, y: int) -> bool {
        &&& cy < y || (cy == y && cx < x)
        &&& self.board@.cells[self.flat(cx, cy)] != Cell::Empty
    }

    /// Channel `c` of what cell `(cx, cy)` shows at `(i, j)` from its
    /// interior's corner, with the variants in `choices`.
    pub open spec fn mark_byte(
        &self,
        choices: Seq<usize>,
        cx: int,
        cy: int,
        i: int,
        j: int,
        c: int,
    ) -> u8 {
        let n = self.flat(cx, cy);
        self.pool(self.board@.cells[n])[choices[n] as int].byte_at(i, j, c)
    }

    /// Pixel `(px, py)` lies in the interior of a cell that is drawn by
    /// row `y`, column `x`.
    pub open spec fn covered(&self, px: int, py: int, x: int, y: int) -> bool {
        let g = self.geometry;
        &&& g.inside(px, py)
        &&& self.drawn(
            g.cell_index_along(px, g.origin_x as int),
            g.cell_index_along(py, g.origin_y as int),
            x,
            y,
        )
    }

    /// What pixel `(px, py)` shows of an occupied cell's artwork.
    pub open spec fn covered_byte(&self, choices: Seq<usize>, px: int, py: int, c: int) -> u8 {
        let g = self.geometry;
        self.mark_byte(
            choices,
            g.cell_index_along(px, g.origin_x as int),
            g.cell_index_along(py, g.origin_y as int),
            g.within_along(px, g.origin_x as int),
            g.within_along(py, g.origin_y as int),
            c,
        )
    }

    /// Channel `c` of pixel `(px, py)` of the whole scene: the artwork of
    /// an occupied cell, else a separator, else the background.
    pub open spec fn scene_byte(&self, choices: Seq<usize>, px: int, py: int, c: int) -> u8 {
        let n = self.board.size as int;
        if self.covered(px, py, n, n) {
            self.covered_byte(choices, px, py, c)
        } else if self.geometry.on_grid(px, py) {
            line_color()[c]
        } else {
            background()[c]
        }
    }

    /// `frame` shows the scene with the variants in `choices`.
    pub open spec fn shows(&self, frame: Surface, choices: Seq<usize>) -> bool {
        forall|k: int|
            0 <= k < frame.pixels@.len() ==> #[trigger] frame.pixels@[k] == self.scene_byte(
                choices,
                pixel_x(frame.width as int, k),
                pixel_y(frame.width as int, k),
                k % 4,
            )
    }

    /// A world with an empty board of `size^dimension` cells laid out on a
    /// `width` by `height` surface, whose marks are drawn with the source
    /// images scaled to the cells' edge.
    pub fn new(
        size: usize,
        dimension: usize,
        width: u32,
        height: u32,
        x_sources: &Vec<Sprite>,
        o_sources: &Vec<Sprite>,
    ) -> (r: Result<World, SetupError>)
        ensures
            r matches Ok(w) ==> {
                &&& w.wf()
                &&& w.board.size == size
                &&& w.board.dimension == dimension
                &&& forall|i: int|
                    0 <= i < w.board@.cells.len() ==> (#[trigger] w.board@.cells[i]) == Cell::Empty
                &&& w.geometry.width == width
                &&& w.geometry.height == height
                &&& w.x_img@.len() == x_sources@.len()
                &&& w.o_img@.len() == o_sources@.len()
                &&& forall|i: int|
                    0 <= i < w.x_img@.len() ==> (#[trigger] w.x_img@[i]).data@ == triangle_resized(
                        x_sources@[i].data@,
                        x_sources@[i].width,
                        x_sources@[i].height,
                        w.geometry.square_size,
                    )
                &&& forall|i: int|
                    0 <= i < w.o_img@.len() ==> (#[trigger] w.o_img@[i]).data@ == triangle_resized(
                        o_sources@[i].data@,
                        o_sources@[i].width,
                        o_sources@[i].height,
                        w.geometry.square_size,
                    )
            },
            size == 0 ==> r == Err::<World, SetupError>(SetupError::Shape(ShapeError::ZeroSize)),
            size > 0 && dimension == 0 ==> r == Err::<World, SetupError>(
                SetupError::Shape(ShapeError::ZeroDimension),
            ),
            size > 0 && dimension > 0 && power(size as nat, dimension as nat) > usize::MAX ==> r
                == Err::<World, SetupError>(SetupError::Shape(ShapeError::TooLarge)),
            shape_ok(size, dimension) && !layout_ok(width, height, size) ==> r == Err::<
                World,
                SetupError,
            >(SetupError::SurfaceTooSmall),
            shape_ok(size, dimension) && layout_ok(width, height, size) && (x_sources@.len() == 0
                || o_sources@.len() == 0) ==> r == Err::<World, SetupError>(
                SetupError::EmptyVariantPool,
            ),
            shape_ok(size, dimension) && layout_ok(width, height, size) && x_sources@.len() > 0
                && o_sources@.len() > 0 ==> (r is Ok <==> pool_ok(
                x_sources@,
                edge_of(width, height, size),
            ) && pool_ok(o_sources@, edge_of(width, height, size))),
            r is Err ==> (r == Err::<World, SetupError>(SetupError::BadSprite) <==> shape_ok(
                size,
                dimension,
            ) && layout_ok(width, height, size) && x_sources@.len() > 0 && o_sources@.len() > 0),
    {
        let board = match Board::new(size, dimension) {
            Ok(b) => b,
            Err(e) => {
                return Err(SetupError::Shape(e));
            },
        };
        let geometry = match Geometry::compute_geometry(width, height, size) {
            Some(g) => g,
            None => {
                return Err(SetupError::SurfaceTooSmall);
            },
        };
        if x_sources.len() == 0 || o_sources.len() == 0 {
            return Err(SetupError::EmptyVariantPool);
        }
        let edge = geometry.square_size;
        let x_img = match Self::scale_pool(x_sources, edge) {
            Some(p) => p,
            None => {
                return Err(SetupError::BadSprite);
            },
        };
        let o_img = match Self::scale_pool(o_sources, edge) {
            Some(p) => p,
            None => {
                return Err(SetupError::BadSprite);
            },
        };
        Ok(World { board, geometry, x_img, o_img })
    }

    /// Every source scaled to `edge`, or `None` if one cannot be.
    fn scale_pool(sources: &Vec<Sprite>, edge: u32) -> (r: Option<Vec<Sprite>>)
        ensures
            sources@.len() > 0 ==> (r is Some <==> pool_ok(sources@, edge)),
            r matches Some(p) ==> {
                &&& p@.len() == sources@.len()
                &&& forall|i: int|
                    0 <= i < p@.len() ==> {
                        &&& (#[trigger] p@[i]).wf()
                        &&& p@[i].width == edge
                        &&& p@[i].height == edge
                        &&& p@[i].data@ == triangle_resized(
                            sources@[i].data@,
                            sources@[i].width,
                            sources@[i].height,
                            edge,
                        )
                    }
            },
    {
        let mut out: Vec<Sprite> = Vec::new();
        let mut i: usize = 0;
        let e = edge as u128;
        assert(4 * e * e <= 4 * 0xffff_ffffu128 * 0xffff_ffffu128) by (nonlinear_arith)
            requires
                e <= 0xffff_ffff,
        ;
        let small = 4 * e * e <= usize::MAX as u128;
        while i < sources.len()
            invariant
                e == edge,
                small == (4 * e * e <= usize::MAX),
                i <= sources@.len(),
                out@.len() == i,
                forall|k: int| 0 <= k < i ==> usable_source(#[trigger] sources@[k], edge),
                i > 0 ==> small,
                forall|k: int|
                    0 <= k < i ==> {
                        &&& (#[trigger] out@[k]).wf()
                        &&& out@[k].width == edge
                        &&& out@[k].height == edge
                        &&& out@[k].data@ == triangle_resized(
                            sources@[k].data@,
                            sources@[k].width,
                            sources@[k].height,
                            edge,
                        )
                    },
            decreases sources@.len() - i,
        {
            let s = &sources[i];
            let n = s.data.len() as u128;
            let w = s.width as u128;
            let h = s.height as u128;
            assert(4 * w * h <= 4 * 0xffff_ffffu128 * 0xffff_ffffu128) by (nonlinear_arith)
                requires
                    w <= 0xffff_ffff,
                    h <= 0xffff_ffff,
            ;
            assert(4 * w * e <= 4 * 0xffff_ffffu128 * 0xffff_ffffu128) by (nonlinear_arith)
                requires
                    w <= 0xffff_ffff,
                    e <= 0xffff_ffff,
            ;
            if !small || w == 0 || h == 0 || n != 4 * w * h || 4 * w * e > usize::MAX as u128 {
                return None;
            }
            out.push(scale_sprite(s, edge));
            i = i + 1;
        }
        Some(out)
    }

    /// The cell at `coords`.
    pub fn get_cell(&self, coords: &[usize]) -> (r: Result<Cell, IndexError>)
        requires
            self.wf(),
        ensures
            r is Ok <==> self.board@.index_result(coords@) is Ok,
            r is Err ==> r == Err::<Cell, IndexError>(self.board@.index_result(coords@)->Err_0),
            r matches Ok(v) ==> v == self.board@.cell_at(coords@),
    {
        self.board.get(coords)
    }

    /// Places `mark` in the cell under pixel `(px, py)` and returns that
    /// cell. Only a two-dimensional board can be played on screen; for any
    /// other the world is unchanged and `DimensionMismatch` comes back.
    pub fn move_at(&mut self, px: u32, py: u32, mark: Cell) -> (r: Result<(usize, usize), IndexError>)
        requires
            old(self).wf(),
        ensures
            final(self).wf(),
            final(self).geometry == old(self).geometry,
            final(self).x_img == old(self).x_img,
            final(self).o_img == old(self).o_img,
            r is Ok <==> old(self).board.dimension == 2,
            r is Err ==> r == Err::<(usize, usize), IndexError>(IndexError::DimensionMismatch)
                && final(self).board@ == old(self).board@,
            r matches Ok(c) ==> {
                &&& c.0 == old(self).geometry.cell_x(px as int)
                &&& c.1 == old(self).geometry.cell_y(py as int)
                &&& final(self).board@ == old(self).board@.with_cell(seq![c.0, c.1], mark)
            },
    {
        let (x, y) = self.geometry.pixel_to_cell(px, py);
        let coords = [x, y];
        proof {
            assert(coords@ =~= seq![x, y]);
        }
        match self.board.set(&coords, mark) {
            Ok(()) => Ok((x, y)),
            Err(e) => Err(e),
        }
    }

    /// Paints the separators: `size - 1` horizontal and as many vertical
    /// lines of the stroke's width, across the whole drawn region.
    pub fn draw_grid(&self, frame: &mut Surface)
        requires
            self.wf(),
            old(frame).wf(),
        ensures
            final(frame).wf(),
            final(frame).width == old(frame).width,
            final(frame).height == old(frame).height,
            final(frame).pixels@.len() == old(frame).pixels@.len(),
            forall|k: int|
                0 <= k < final(frame).pixels@.len() ==> #[trigger] final(frame).pixels@[k] == if self.geometry.on_grid(
                    pixel_x(final(frame).width as int, k),
                    pixel_y(final(frame).width as int, k),
                ) {
                    line_color()[k % 4]
                } else {
                    old(frame).pixels@[k]
                },
    {
        let ghost before = *frame;
        let g = &self.geometry;
        let ink = black();
        let off = g.square_size as u64 + g.stroke_width as u64;
        let ox = g.origin_x as u64;
        let oy = g.origin_y as u64;
        let tw = g.total_width as u64;
        let sw = g.stroke_width as u64;
        let mut i: usize = 1;
        while i < g.size
            invariant
                self.wf(),
                g == &self.geometry,
                off == g.offset(),
                ox == g.origin_x,
                oy == g.origin_y,
                tw == g.total_width,
                sw == g.stroke_width,
                ink@ == line_color(),
                1 <= i <= g.size,
                frame.wf(),
                frame.width == before.width,
                frame.height == before.height,
                frame.pixels@.len() == before.pixels@.len(),
                forall|k: int|
                    0 <= k < frame.pixels@.len() ==> #[trigger] frame.pixels@[k] == if g.on_lines(
                        i as int,
                        pixel_x(frame.width as int, k),
                        pixel_y(frame.width as int, k),
                    ) {
                        line_color()[k % 4]
                    } else {
                        before.pixels@[k]
                    },
            decreases g.size - i,
        {
            proof {
                let m = crate::geometry::short_side(g.width as int, g.height as int);
                assert(off * i <= 2 * m) by (nonlinear_arith)
                    requires
                        off * g.size <= 2 * m,
                        i < g.size,
                        off >= 0,
                ;
            }
            let at = off * i as u64;
            rect(ox, oy + at, tw, sw, &ink, frame);
            rect(ox + at, oy, sw, tw, &ink, frame);
            i = i + 1;
        }
    }

    /// Paints each occupied cell of a two-dimensional board with the
    /// variant that `choices` gives it, over the cell's drawable interior;
    /// empty cells and everything outside the interiors are left alone.
    /// For any other dimension the surface is unchanged and
    /// `DimensionMismatch` comes back.
    pub fn draw_board(&self, frame: &mut Surface, choices: &Vec<usize>) -> (r: Result<(), IndexError>)
        requires
            self.wf(),
            old(frame).wf(),
            self.valid_choices(choices@),
        ensures
            final(frame).wf(),
            final(frame).width == old(frame).width,
            final(frame).height == old(frame).height,
            final(frame).pixels@.len() == old(frame).pixels@.len(),
            r is Ok <==> self.board.dimension == 2,
            r is Err ==> r == Err::<(), IndexError>(IndexError::DimensionMismatch) && *final(frame)
                == *old(frame),
            r is Ok ==> forall|k: int|
                0 <= k < final(frame).pixels@.len() ==> #[trigger] final(frame).pixels@[k] == if self.covered(
                    pixel_x(final(frame).width as int, k),
                    pixel_y(final(frame).width as int, k),
                    self.board.size as int,
                    self.board.size as int,
                ) {
                    self.covered_byte(
                        choices@,
                        pixel_x(final(frame).width as int, k),
                        pixel_y(final(frame).width as int, k),
                        k % 4,
                    )
                } else {
                    old(frame).pixels@[k]
                },
    {
        if self.board.dimension != 2 {
            return Err(IndexError::DimensionMismatch);
        }
        let ghost before = *frame;
        let ghost fw = frame.width as int;
        let ghost fh = frame.height as int;
        let n = self.board.size;
        let g = &self.geometry;
        proof {
            assert(power(n as nat, 2) == n * n) by {
                assert(power(n as nat, 0) == 1);
                assert(power(n as nat, 1) == n * 1);
            }
            assert forall|k: int| 0 <= k < frame.pixels@.len() implies !#[trigger] self.covered(
                pixel_x(fw, k),
                pixel_y(fw, k),
                0,
                0,
            ) by {
                crate::geometry::lemma_cell_box(*g, pixel_x(fw, k), g.origin_x as int, 0);
                crate::geometry::lemma_cell_box(*g, pixel_y(fw, k), g.origin_y as int, 0);
            }
        }
        let mut y: usize = 0;
        while y < n
            invariant
                self.wf(),
                self.board.dimension == 2,
                self.valid_choices(choices@),
                n == self.board.size,
                g == &self.geometry,
                self.board@.cells.len() == n * n,
                y <= n,
                frame.wf(),
                frame.width == fw,
                frame.height == fh,
                before.width == fw,
                frame.pixels@.len() == before.pixels@.len(),
                forall|k: int|
                    0 <= k < frame.pixels@.len() ==> #[trigger] frame.pixels@[k] == if self.covered(
                        pixel_x(fw, k),
                        pixel_y(fw, k),
                        0,
                        y as int,
                    ) {
                        self.covered_byte(choices@, pixel_x(fw, k), pixel_y(fw, k), k % 4)
                    } else {
                        before.pixels@[k]
                    },
            decreases n - y,
        {
            let mut x: usize = 0;
            proof {
                assert forall|k: int| 0 <= k < frame.pixels@.len() implies self.covered(
                    pixel_x(fw, k),
                    pixel_y(fw, k),
                    0,
                    y as int,
                ) == #[trigger] self.covered(pixel_x(fw, k), pixel_y(fw, k), x as int, y as int) by {
                    crate::geometry::lemma_cell_box(*g, pixel_x(fw, k), g.origin_x as int, 0);
                    crate::geometry::lemma_cell_box(*g, pixel_y(fw, k), g.origin_y as int, 0);
                }
            }
            while x < n
                invariant
                    self.wf(),
                    self.board.dimension == 2,
                    self.valid_choices(choices@),
                    n == self.board.size,
                    g == &self.geometry,
                    self.board@.cells.len() == n * n,
                    x <= n,
                    y < n,
                    frame.wf(),
                    frame.width == fw,
                    frame.height == fh,
                    before.width == fw,
                    frame.pixels@.len() == before.pixels@.len(),
                    forall|k: int|
                        0 <= k < frame.pixels@.len() ==> #[trigger] frame.pixels@[k] == if self.covered(
                            pixel_x(fw, k),
                            pixel_y(fw, k),
                            x as int,
                            y as int,
                        ) {
                            self.covered_byte(choices@, pixel_x(fw, k), pixel_y(fw, k), k % 4)
                        } else {
                            before.pixels@[k]
                        },
                decreases n - x,
            {
                proof {
                    assert(x + n * y < n * n) by (nonlinear_arith)
                        requires
                            x < n,
                            y < n,
                    ;
                }
                let i = x + n * y;
                let (bx, by) = g.cell_to_pixel(x, y);
                let cell = self.board.cells[i];
                match cell {
                    Cell::Empty => {},
                    Cell::X => {
                        img(bx, by, &self.x_img[choices[i]], frame);
                    },
                    Cell::O => {
                        img(bx, by, &self.o_img[choices[i]], frame);
                    },
                }
                proof {
                    assert forall|k: int| 0 <= k < frame.pixels@.len() implies #[trigger] frame.pixels@[k]
                        == if self.covered(pixel_x(fw, k), pixel_y(fw, k), x + 1, y as int) {
                        self.covered_byte(choices@, pixel_x(fw, k), pixel_y(fw, k), k % 4)
                    } else {
                        before.pixels@[k]
                    } by {
                        let px = pixel_x(fw, k);
                        let py = pixel_y(fw, k);
                        crate::geometry::lemma_cell_box(*g, px, g.origin_x as int, x as int);
                        crate::geometry::lemma_cell_box(*g, py, g.origin_y as int, y as int);
                    }
                }
                x = x + 1;
            }
            proof {
                assert forall|k: int| 0 <= k < frame.pixels@.len() implies self.covered(
                    pixel_x(fw, k),
                    pixel_y(fw, k),
                    n as int,
                    y as int,
                ) == #[trigger] self.covered(pixel_x(fw, k), pixel_y(fw, k), 0, y + 1) by {
                    crate::geometry::lemma_cell_box(*g, pixel_x(fw, k), g.origin_x as int, 0);
                    crate::geometry::lemma_cell_box(*g, pixel_y(fw, k), g.origin_y as int, 0);
                }
            }
            y = y + 1;
        }
        proof {
            assert forall|k: int| 0 <= k < frame.pixels@.len() implies self.covered(
                pixel_x(fw, k),
                pixel_y(fw, k),
                0,
                n as int,
            ) == #[trigger] self.covered(pixel_x(fw, k), pixel_y(fw, k), n as int, n as int) by {
                crate::geometry::lemma_cell_box(*g, pixel_x(fw, k), g.origin_x as int, 0);
                crate::geometry::lemma_cell_box(*g, pixel_y(fw, k), g.origin_y as int, 0);
            }
        }
        Ok(())
    }

    /// Repaints the whole surface: background, separators, then each
    /// occupied cell with the variant that `choices` gives it. Only a
    /// two-dimensional board can be drawn; for any other the surface is
    /// unchanged and `DimensionMismatch` comes back.
    pub fn draw_with(&self, frame: &mut Surface, choices: &Vec<usize>) -> (r: Result<(), IndexError>)
        requires
            self.wf(),
            old(frame).wf(),
            self.valid_choices(choices@),
        ensures
            final(frame).wf(),
            final(frame).width == old(frame).width,
            final(frame).height == old(frame).height,
            r is Ok <==> self.board.dimension == 2,
            r is Err ==> r == Err::<(), IndexError>(IndexError::DimensionMismatch) && *final(frame)
                == *old(frame),
            r is Ok ==> self.shows(*final(frame), choices@),
    {
        if self.board.dimension != 2 {
            return Err(IndexError::DimensionMismatch);
        }
        clear(frame, &white());
        self.draw_grid(frame);
        self.draw_board(frame, choices)
    }

    /// Repaints the whole surface as `draw_with` does, with a variant drawn
    /// at random for each occupied cell.
    pub fn draw(&self, frame: &mut Surface) -> (r: Result<(), IndexError>)
        requires
            self.wf(),
            old(frame).wf(),
        ensures
            final(frame).wf(),
            final(frame).width == old(frame).width,
            final(frame).height == old(frame).height,
            r is Ok <==> self.board.dimension == 2,
            r is Err ==> r == Err::<(), IndexError>(IndexError::DimensionMismatch) && *final(frame)
                == *old(frame),
            r is Ok ==> exists|choices: Seq<usize>|
                self.valid_choices(choices) && #[trigger] self.shows(*final(frame), choices),
    {
        if self.board.dimension != 2 {
            return Err(IndexError::DimensionMismatch);
        }
        let choices = self.choose_variants();
        let r = self.draw_with(frame, &choices);
        assert(self.valid_choices(choices@) && self.shows(*frame, choices@));
        r
    }

    /// One variant drawn at random from each occupied cell's pool.
    pub fn choose_variants(&self) -> (r: Vec<usize>)
        requires
            self.wf(),
        ensures
            self.valid_choices(r@),
    {
        let mut out: Vec<usize> = Vec::new();
        let mut i: usize = 0;
        while i < self.board.cells.len()
            invariant
                self.wf(),
                i <= self.board@.cells.len(),
                out@.len() == i,
                forall|k: int|
                    0 <= k < i && self.board@.cells[k] != Cell::Empty ==> #[trigger] out@[k]
                        < self.pool(self.board@.cells[k]).len(),
            decreases self.board@.cells.len() - i,
        {
            let v = match self.board.cells[i] {
                Cell::Empty => 0,
                Cell::X => Self::pick(&self.x_img),
                Cell::O => Self::pick(&self.o_img),
            };
            out.push(v);
            i = i + 1;
        }
        out
    }

    /// One variant of a non-empty pool, chosen at random.
    pub fn pick(pool: &Vec<Sprite>) -> (r: usize)
        requires
            pool@.len() > 0,
        ensures
            r < pool@.len(),
    {
        random_below(pool.len())
    }
}

} // verus!
