//! The canvas: a buffer of surface pixels addressed in logical cells.

use vstd::prelude::*;
use vstd::arithmetic::div_mod::lemma_fundamental_div_mod;
use crate::line::line_cells;
use crate::paint::{lemma_paint_cells_geometry, paint_cells, shaded, Color, Draw};
use crate::scale::{clip, edge, locate, scale, span, AddressingMode};
use crate::shapes::{rect_cells, Line, Pixel, Rect};
use crate::view::{lemma_pixel_position, lemma_row_on_surface, CanvasView};

verus! {

/// Why a canvas could not be made.
#[derive(Clone, Copy, Debug, PartialEq, Eq, Structural)]
pub enum CanvasError {
    /// A width or a height is zero.
    InvalidDimension,
    /// The buffer does not hold exactly one value per surface pixel.
    BufferSizeMismatch,
}

/// The scale factor along one axis as the exact fraction `num / den`:
/// surface pixels per logical cell.
#[derive(Clone, Copy, Debug, PartialEq, Eq, Structural)]
pub struct Ratio {
    pub num: usize,
    pub den: usize,
}

/// A rectangle of surface pixels: columns `left .. right` of rows
/// `top .. bottom`.
#[derive(Clone, Copy, Debug, PartialEq, Eq, Structural)]
pub struct Block {
    pub left: usize,
    pub right: usize,
    pub top: usize,
    pub bottom: usize,
}

/// A buffer of surface pixels together with the logical resolution in which
/// it is drawn on.
pub struct Canvas<T> {
    buf: Vec<T>,
    surface_size: (usize, usize),
    canvas_size: (usize, usize),
    ratio: (Ratio, Ratio),
    mode: AddressingMode,
}

impl<T: Copy> Canvas<T> {
    /// The canvas as plain mathematics.
    pub closed spec fn view(&self) -> CanvasView<T> {
        CanvasView {
            pixels: self.buf@,
            surface_width: self.surface_size.0 as nat,
            surface_height: self.surface_size.1 as nat,
            canvas_width: self.canvas_size.0 as nat,
            canvas_height: self.canvas_size.1 as nat,
            mode: self.mode,
        }
    }

    /// The scale factors that the canvas keeps, horizontal first.
    pub closed spec fn kept_ratio(&self) -> (Ratio, Ratio) {
        self.ratio
    }

    /// The canvas is well formed: its dimensions are positive, its buffer
    /// holds one value per surface pixel, and the scale factors it keeps are
    /// surface size over canvas size.
    pub open spec fn wf(&self) -> bool {
        &&& self@.wf()
        &&& self.kept_ratio().0.num == self@.surface_width
        &&& self.kept_ratio().0.den == self@.canvas_width
        &&& self.kept_ratio().1.num == self@.surface_height
        &&& self.kept_ratio().1.den == self@.canvas_height
    }

    /// The scale factors of a surface of `surface_size` pixels that shows
    /// `canvas_size` cells, horizontal first.
    pub open spec fn ratio_of(surface_size: (usize, usize), canvas_size: (usize, usize)) -> (
        Ratio,
        Ratio,
    ) {
        (
            Ratio { num: surface_size.0, den: canvas_size.0 },
            Ratio { num: surface_size.1, den: canvas_size.1 },
        )
    }

    /// Whether a canvas can be made of these parts, and if not, why. A zero
    /// dimension is reported before a buffer of the wrong length.
    pub open spec fn accepts(
        pixels: Seq<T>,
        surface_size: (usize, usize),
        canvas_size: (usize, usize),
    ) -> Result<(), CanvasError> {
        if canvas_size.0 == 0 || canvas_size.1 == 0 || surface_size.0 == 0 || surface_size.1
            == 0 {
            Err(CanvasError::InvalidDimension)
        } else if pixels.len() != surface_size.0 * surface_size.1 {
            Err(CanvasError::BufferSizeMismatch)
        } else {
            Ok(())
        }
    }

    /// The canvas that construction gives.
    pub open spec fn fresh(
        pixels: Seq<T>,
        surface_size: (usize, usize),
        canvas_size: (usize, usize),
        mode: AddressingMode,
    ) -> CanvasView<T> {
        CanvasView {
            pixels,
            surface_width: surface_size.0 as nat,
            surface_height: surface_size.1 as nat,
            canvas_width: canvas_size.0 as nat,
            canvas_height: canvas_size.1 as nat,
            mode,
        }
    }

    /// Makes a canvas over `buf` that clamps coordinates.
    pub fn new(buf: Vec<T>, surface_size: (usize, usize), canvas_size: (usize, usize)) -> (r:
        Result<Self, CanvasError>)
        ensures
            Self::accepts(buf@, surface_size, canvas_size) matches Err(e) ==> r == Err::<
                Self,
                CanvasError,
            >(e),
            Self::accepts(buf@, surface_size, canvas_size) is Ok ==> r is Ok && r.unwrap().wf()
                && r.unwrap()@ == Self::fresh(
                buf@,
                surface_size,
                canvas_size,
                AddressingMode::Clamp,
            ) && r.unwrap().kept_ratio() == Self::ratio_of(surface_size, canvas_size),
    {
        Self::with_mode(buf, surface_size, canvas_size, AddressingMode::Clamp)
    }

    /// Makes a canvas over `buf` with the given addressing mode.
    pub fn with_mode(
        buf: Vec<T>,
        surface_size: (usize, usize),
        canvas_size: (usize, usize),
        mode: AddressingMode,
    ) -> (r: Result<Self, CanvasError>)
        ensures
            Self::accepts(buf@, surface_size, canvas_size) matches Err(e) ==> r == Err::<
                Self,
                CanvasError,
            >(e),
            Self::accepts(buf@, surface_size, canvas_size) is Ok ==> r is Ok && r.unwrap().wf()
                && r.unwrap()@ == Self::fresh(buf@, surface_size, canvas_size, mode)
                && r.unwrap().kept_ratio() == Self::ratio_of(surface_size, canvas_size),
    {
        if canvas_size.0 == 0 || canvas_size.1 == 0 || surface_size.0 == 0 || surface_size.1
            == 0 {
            return Err(CanvasError::InvalidDimension);
        }
        let count = surface_size.0.checked_mul(surface_size.1);
        let len: usize = buf.len();
        if count.is_none() || count.unwrap() != len {
            return Err(CanvasError::BufferSizeMismatch);
        }
        Ok(
            Canvas {
                buf,
                surface_size,
                canvas_size,
                ratio: (
                    Ratio { num: surface_size.0, den: canvas_size.0 },
                    Ratio { num: surface_size.1, den: canvas_size.1 },
                ),
                mode,
            },
        )
    }

    /// The width and height of the surface in pixels.
    pub fn surface_size(&self) -> (r: (usize, usize))
        ensures
            r.0 == self@.surface_width,
            r.1 == self@.surface_height,
    {
        self.surface_size
    }

    /// The width and height of the canvas in logical cells.
    pub fn canvas_size(&self) -> (r: (usize, usize))
        ensures
            r.0 == self@.canvas_width,
            r.1 == self@.canvas_height,
    {
        self.canvas_size
    }

    /// How the canvas addresses coordinates that lie outside it.
    pub fn mode(&self) -> (r: AddressingMode)
        ensures
            r == self@.mode,
    {
        self.mode
    }

    /// The scale factors, horizontal first: surface size over canvas size.
    pub fn ratio(&self) -> (r: (Ratio, Ratio))
        requires
            self.wf(),
        ensures
            r == self.kept_ratio(),
            r.0.num == self@.surface_width && r.0.den == self@.canvas_width,
            r.1.num == self@.surface_height && r.1.den == self@.canvas_height,
            r.0.num > 0 && r.0.den > 0 && r.1.num > 0 && r.1.den > 0,
    {
        self.ratio
    }

    /// Gives the surface another size. Every pixel of the new surface has
    /// the value `val`; the canvas keeps its logical size and its mode. A
    /// size with a zero in it is refused as `InvalidDimension`, one with more
    /// pixels than a buffer can hold as `BufferSizeMismatch`; the canvas is
    /// then as it was.
    pub fn resize(&mut self, surface_size: (usize, usize), val: T) -> (r: Result<
        (),
        CanvasError,
    >)
        requires
            old(self).wf(),
        ensures
            final(self).wf(),
            surface_size.0 == 0 || surface_size.1 == 0 ==> r == Err::<(), CanvasError>(
                CanvasError::InvalidDimension,
            ),
            surface_size.0 != 0 && surface_size.1 != 0 && surface_size.0 * surface_size.1
                > usize::MAX ==> r == Err::<(), CanvasError>(CanvasError::BufferSizeMismatch),
            surface_size.0 != 0 && surface_size.1 != 0 && surface_size.0 * surface_size.1
                <= usize::MAX ==> r is Ok,
            r is Ok ==> final(self)@ == old(self)@.resized(
                surface_size.0 as nat,
                surface_size.1 as nat,
                val,
            ) && final(self).kept_ratio() == Self::ratio_of(
                surface_size,
                (old(self)@.canvas_width as usize, old(self)@.canvas_height as usize),
            ),
            r is Err ==> *final(self) == *old(self),
    {
        if surface_size.0 == 0 || surface_size.1 == 0 {
            return Err(CanvasError::InvalidDimension);
        }
        let count = surface_size.0.checked_mul(surface_size.1);
        if count.is_none() {
            return Err(CanvasError::BufferSizeMismatch);
        }
        let count: usize = count.unwrap();
        let mut buf: Vec<T> = Vec::new();
        while buf.len() < count
            invariant
                buf.len() <= count,
                forall|i: int| 0 <= i < buf.len() ==> buf@[i] == val,
            decreases count - buf.len(),
        {
            buf.push(val);
        }
        let ghost before = self@;
        self.buf = buf;
        self.surface_size = surface_size;
        self.ratio = (
            Ratio { num: surface_size.0, den: self.canvas_size.0 },
            Ratio { num: surface_size.1, den: self.canvas_size.1 },
        );
        assert(self@.pixels =~= before.resized(
            surface_size.0 as nat,
            surface_size.1 as nat,
            val,
        ).pixels);
        Ok(())
    }

    /// Finds the surface pixel at which logical cell `(x, y)` begins: its top
    /// left corner. A coordinate too large for `usize` is given as the
    /// largest `usize`.
    pub fn canvas_to_surface(&self, x: i32, y: i32) -> (r: (usize, usize))
        requires
            self.wf(),
        ensures
            r.0 == clip(self@.x_edge(self@.column(x as int)), usize::MAX as int),
            r.1 == clip(self@.y_edge(self@.row(y as int)), usize::MAX as int),
    {
        (
            locate(self.mode, x, self.surface_size.0, self.canvas_size.0),
            locate(self.mode, y, self.surface_size.1, self.canvas_size.1),
        )
    }

    /// Finds the logical cell nearest to surface pixel `(x, y)`: the pixel's
    /// coordinates divided by the scale factors and rounded. A coordinate
    /// too large for `i32` is given as the largest `i32`.
    pub fn surface_to_canvas(&self, x: usize, y: usize) -> (r: (i32, i32))
        requires
            self.wf(),
        ensures
            r.0 == clip(
                edge(x as int, self@.canvas_width as int, self@.surface_width as int),
                i32::MAX as int,
            ),
            r.1 == clip(
                edge(y as int, self@.canvas_height as int, self@.surface_height as int),
                i32::MAX as int,
            ),
    {
        let cx: u128 = scale(x as u64, self.canvas_size.0, self.surface_size.0);
        let cy: u128 = scale(y as u64, self.canvas_size.1, self.surface_size.1);
        (
            if cx < i32::MAX as u128 { cx as i32 } else { i32::MAX },
            if cy < i32::MAX as u128 { cy as i32 } else { i32::MAX },
        )
    }

    /// Finds the surface pixels of the block of `w` by `h` cells whose first
    /// cell logical `(x, y)` addresses, as far as they lie on the surface.
    pub fn block(&self, x: i32, y: i32, w: usize, h: usize) -> (b: Block)
        requires
            self.wf(),
        ensures
            b.left == clip(self@.x_edge(self@.column(x as int)), self@.surface_width as int),
            b.right == clip(
                self@.x_edge(self@.column(x as int) + w),
                self@.surface_width as int,
            ),
            b.top == clip(self@.y_edge(self@.row(y as int)), self@.surface_height as int),
            b.bottom == clip(
                self@.y_edge(self@.row(y as int) + h),
                self@.surface_height as int,
            ),
            b.left <= b.right,
            b.top <= b.bottom,
    {
        let across = span(self.mode, x, w, self.surface_size.0, self.canvas_size.0);
        let down = span(self.mode, y, h, self.surface_size.1, self.canvas_size.1);
        Block { left: across.0, right: across.1, top: down.0, bottom: down.1 }
    }

    /// The value of the pixel that stands for logical cell `(x, y)`: the
    /// first pixel of the cell, or the nearest pixel on the far edge of the
    /// surface where the cell begins beyond it.
    pub fn get(&self, x: i32, y: i32) -> (r: &T)
        requires
            self.wf(),
        ensures
            0 <= self@.probe(x as int, y as int) < self@.pixels.len(),
            *r == self@.pixels[self@.probe(x as int, y as int)],
    {
        let index = self.probe(x, y);
        &self.buf[index]
    }

    /// The pixel that stands for logical cell `(x, y)`, to be changed in
    /// place.
    pub fn get_mut(&mut self, x: i32, y: i32) -> (r: &mut T)
        requires
            old(self).wf(),
        ensures
            0 <= old(self)@.probe(x as int, y as int) < old(self)@.pixels.len(),
            *r == old(self)@.pixels[old(self)@.probe(x as int, y as int)],
            final(self).wf(),
            final(self)@ == old(self)@.with_pixels(
                old(self)@.pixels.update(old(self)@.probe(x as int, y as int), *final(r)),
            ),
    {
        let index = self.probe(x, y);
        &mut self.buf[index]
    }

    /// Finds the buffer position of the pixel that stands for logical cell
    /// `(x, y)` when it is read.
    fn probe(&self, x: i32, y: i32) -> (index: usize)
        requires
            self.wf(),
        ensures
            index == self@.probe(x as int, y as int),
            index < self@.pixels.len(),
    {
        let corner = self.canvas_to_surface(x, y);
        let px: usize = if corner.0 < self.surface_size.0 - 1 {
            corner.0
        } else {
            self.surface_size.0 - 1
        };
        let py: usize = if corner.1 < self.surface_size.1 - 1 {
            corner.1
        } else {
            self.surface_size.1 - 1
        };
        proof {
            lemma_pixel_position(
                px as int,
                py as int,
                self@.surface_width as int,
                self@.surface_height as int,
            );
            assert(self.buf.len() == self@.pixels.len());
        }
        py * self.surface_size.0 + px
    }

    /// The value of surface pixel `(x, y)`.
    pub fn get_surface(&mut self, x: usize, y: usize) -> (r: &T)
        requires
            old(self).wf(),
            x + y * old(self)@.surface_width < old(self)@.pixels.len(),
        ensures
            *r == old(self)@.pixels[x + y * old(self)@.surface_width],
            *final(self) == *old(self),
    {
        proof {
            self.lemma_product_fits(y as int);
        }
        &self.buf[x + y * self.surface_size.0]
    }

    /// Surface pixel `(x, y)`, to be changed in place.
    pub fn get_surface_mut(&mut self, x: usize, y: usize) -> (r: &mut T)
        requires
            old(self).wf(),
            x + y * old(self)@.surface_width < old(self)@.pixels.len(),
        ensures
            *r == old(self)@.pixels[x + y * old(self)@.surface_width],
            final(self).wf(),
            final(self)@ == old(self)@.with_pixels(
                old(self)@.pixels.update(x + y * old(self)@.surface_width, *final(r)),
            ),
    {
        proof {
            self.lemma_product_fits(y as int);
        }
        &mut self.buf[x + y * self.surface_size.0]
    }

    /// Gives surface pixel `(x, y)` the value `val`.
    pub fn set(&mut self, x: usize, y: usize, val: T)
        requires
            old(self).wf(),
            x + y * old(self)@.surface_width < old(self)@.pixels.len(),
        ensures
            final(self).wf(),
            final(self)@ == old(self)@.with_pixels(
                old(self)@.pixels.update(x + y * old(self)@.surface_width, val),
            ),
    {
        proof {
            self.lemma_product_fits(y as int);
        }
        let index: usize = x + y * self.surface_size.0;
        self.buf[index] = val;
    }

    proof fn lemma_product_fits(&self, y: int)
        requires
            y >= 0,
        ensures
            y * self@.surface_width >= 0,
            self@.pixels.len() <= usize::MAX,
    {
        assert(y * self@.surface_width >= 0) by (nonlinear_arith)
            requires
                y >= 0,
                self@.surface_width >= 0,
        ;
        assert(self.buf.len() == self@.pixels.len());
    }

    /// Gives every surface pixel the value `val`.
    pub fn fill(&mut self, val: T)
        requires
            old(self).wf(),
        ensures
            final(self).wf(),
            final(self)@ == old(self)@.with_pixels(old(self)@.filled(val)),
    {
        let ghost before = self@;
        let count: usize = self.buf.len();
        let mut index: usize = 0;
        while index < count
            invariant
                self.wf(),
                self@.with_pixels(before.pixels) == before,
                count == before.pixels.len(),
                count == self@.pixels.len(),
                index <= count,
                forall|i: int| 0 <= i < index ==> self@.pixels[i] == val,
            decreases count - index,
        {
            self.buf[index] = val;
            index = index + 1;
        }
        assert(self@.pixels =~= before.filled(val));
    }

    /// Gives every surface pixel of logical cell `(x, y)` the value `val`.
    pub fn put(&mut self, x: i32, y: i32, val: T)
        requires
            old(self).wf(),
        ensures
            final(self).wf(),
            final(self)@ == old(self)@.with_pixels(old(self)@.put(x as int, y as int, val)),
    {
        let ghost before = self@;
        self.shade(x, y, 1, 1, &Pixel(val));
        assert(self@.pixels =~= before.put(x as int, y as int, val));
    }

    /// Lets `c` colour the block of `w` by `h` cells at logical `(x, y)`.
    #[verifier::loop_isolation(false)]
    pub fn shade<C: Color<T = T>>(&mut self, x: i32, y: i32, w: usize, h: usize, c: &C)
        requires
            old(self).wf(),
        ensures
            final(self).wf(),
            final(self)@ == old(self)@.with_pixels(
                shaded(old(self)@, x as int, y as int, w as int, h as int, *c),
            ),
    {
        let b = self.block(x, y, w, h);
        let width: usize = self.surface_size.0;
        let ghost before = self@;
        let ghost goal = shaded(before, x as int, y as int, w as int, h as int, *c);
        let mut py: usize = b.top;
        while py < b.bottom
            invariant
                self.wf(),
                self@.with_pixels(before.pixels) == before,
                b.top <= py <= b.bottom,
                forall|i: int|
                    0 <= i < before.pixels.len() ==> #[trigger] self@.pixels[i] == if reached(
                        width as int,
                        py as int,
                        0,
                        i,
                    ) {
                        goal[i]
                    } else {
                        before.pixels[i]
                    },
            decreases b.bottom - py,
        {
            let mut px: usize = b.left;
            while px < b.right
                invariant
                    self.wf(),
                    self@.with_pixels(before.pixels) == before,
                    b.top <= py < b.bottom,
                    b.left <= px <= b.right,
                    forall|i: int|
                        0 <= i < before.pixels.len() ==> #[trigger] self@.pixels[i]
                            == if reached(width as int, py as int, px as int, i)
                            && before.covers(x as int, y as int, w as int, h as int, i) {
                            goal[i]
                        } else {
                            before.pixels[i]
                        },
                decreases b.right - px,
            {
                proof {
                    lemma_pixel_position(
                        px as int,
                        py as int,
                        width as int,
                        before.surface_height as int,
                    );
                    assert(self.buf.len() == width * before.surface_height);
                }
                let index: usize = py * width + px;
                let ghost mid = self@;
                let value = c.pixel(self.buf[index], index);
                self.buf[index] = value;
                px = px + 1;
                proof {
                    assert(before.covers(x as int, y as int, w as int, h as int, index as int));
                    assert forall|i: int| 0 <= i < before.pixels.len() implies #[trigger] self@.pixels[i]
                        == if reached(width as int, py as int, px as int, i) && before.covers(
                        x as int,
                        y as int,
                        w as int,
                        h as int,
                        i,
                    ) {
                        goal[i]
                    } else {
                        before.pixels[i]
                    } by {
                        lemma_fundamental_div_mod(i, width as int);
                        if i != index {
                            assert(self@.pixels[i] == mid.pixels[i]);
                            assert(width as int * (i / width as int) == (i / width as int)
                                * width as int) by (nonlinear_arith);
                        }
                    }
                }
            }
            py = py + 1;
            proof {
                assert forall|i: int| 0 <= i < before.pixels.len() implies #[trigger] self@.pixels[i]
                    == if reached(width as int, py as int, 0, i) {
                    goal[i]
                } else {
                    before.pixels[i]
                } by {
                    lemma_fundamental_div_mod(i, width as int);
                }
            }
        }
        proof {
            assert forall|i: int| 0 <= i < before.pixels.len() implies self@.pixels[i]
                == goal[i] by {
                lemma_fundamental_div_mod(i, width as int);
                lemma_row_on_surface(i, width as int, before.surface_height as int);
            }
            assert(self@.pixels =~= goal);
        }
    }

    /// Draws `d` at logical `(x, y)`.
    pub fn draw<D: Draw<T = T>>(&mut self, x: i32, y: i32, d: &D)
        requires
            old(self).wf(),
        ensures
            final(self).wf(),
            final(self)@ == old(self)@.with_pixels(d.painted(old(self)@, x as int, y as int)),
    {
        d.draw(self, x, y);
    }

    /// Draws `d` at logical `(0, 0)` and then gives every surface pixel the
    /// value that stands for that cell.
    pub fn clear<D: Draw<T = T>>(&mut self, d: &D)
        requires
            old(self).wf(),
        ensures
            final(self).wf(),
            final(self)@ == ({
                let drawn = old(self)@.with_pixels(d.painted(old(self)@, 0, 0));
                drawn.with_pixels(drawn.filled(drawn.pixels[drawn.probe(0, 0)]))
            }),
    {
        self.draw(0, 0, d);
        let val: T = *self.get(0, 0);
        self.fill(val);
    }

    /// Draws `d` at each cell of the block of `w` by `h` cells whose first
    /// cell is `(x, y)`, row by row. Cells whose coordinates would pass
    /// `i32::MAX` are left out.
    pub fn rect<D: Draw<T = T>>(&mut self, x: i32, y: i32, w: usize, h: usize, d: &D)
        requires
            old(self).wf(),
        ensures
            final(self).wf(),
            final(self)@ == paint_cells(
                d,
                old(self)@,
                rect_cells(x as int, y as int, w as int, h as int),
            ),
    {
        let ghost before = self@;
        self.draw(x, y, &Rect { w, h, d });
        proof {
            lemma_paint_cells_geometry(
                d,
                before,
                rect_cells(x as int, y as int, w as int, h as int),
            );
        }
    }

    /// Draws `d` at each cell of the line from `(x0, y0)` to `(x1, y1)`, in
    /// order, both end points included.
    pub fn line<D: Draw<T = T>>(&mut self, x0: i32, y0: i32, x1: i32, y1: i32, d: &D)
        requires
            old(self).wf(),
        ensures
            final(self).wf(),
            final(self)@ == paint_cells(
                d,
                old(self)@,
                line_cells(x0 as int, y0 as int, x1 as int, y1 as int),
            ),
    {
        let ghost before = self@;
        self.draw(x0, y0, &Line { end_x: x1, end_y: y1, d });
        proof {
            lemma_paint_cells_geometry(
                d,
                before,
                line_cells(x0 as int, y0 as int, x1 as int, y1 as int),
            );
        }
    }

    /// The surface pixels, row by row.
    pub fn buf(&self) -> (r: &[T])
        ensures
            r@ == self@.pixels,
    {
        self.buf.as_slice()
    }

    /// The surface pixels, row by row, to be changed in place. The canvas
    /// holds whatever the slice holds in the end.
    pub fn buf_mut(&mut self) -> (r: &mut [T])
        ensures
            r@ == old(self)@.pixels,
            final(self)@ == old(self)@.with_pixels(final(r)@),
            final(self).kept_ratio() == old(self).kept_ratio(),
    {
        self.buf.as_mut_slice()
    }

    /// This canvas, borrowed: what is drawn on the borrowed canvas is drawn
    /// on this one.
    pub fn borrowed(&mut self) -> (r: &mut Canvas<T>)
        ensures
            *r == *old(self),
            *final(self) == *final(r),
    {
        self
    }

    /// Gives up the canvas and hands back its buffer.
    pub fn finish(self) -> (r: Vec<T>)
        ensures
            r@ == self@.pixels,
    {
        self.buf
    }
}

/// Whether the row-by-row walk over a surface `width` pixels wide, standing
/// at pixel `(px, py)`, has passed buffer position `i`.
spec fn reached(width: int, py: int, px: int, i: int) -> bool {
    i / width < py || (i / width == py && i % width < px)
}

} // verus!
