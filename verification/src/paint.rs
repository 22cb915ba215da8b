//! The two ways in which a value can paint: by drawing itself onto a canvas,
//! or by giving the colour of one pixel at a time.

use vstd::prelude::*;
use crate::canvas::Canvas;
use crate::view::CanvasView;

verus! {

/// A value that paints itself onto a canvas at a logical position. Shapes
/// are built from drawables and are drawables themselves.
pub trait Draw {
    /// The pixel type of the canvases this value can be drawn on.
    type T: Copy;

    /// The pixels of the canvas after this value has been drawn at logical
    /// `(x, y)` on a canvas that was `before`. A drawable that does not say
    /// what it paints may paint nothing.
    open spec fn painted(&self, before: CanvasView<Self::T>, x: int, y: int) -> Seq<Self::T> {
        before.pixels
    }

    /// Draws this value at logical `(canvas_x, canvas_y)`.
    fn draw(&self, canvas: &mut Canvas<Self::T>, canvas_x: i32, canvas_y: i32)
        requires
            old(canvas).wf(),
        ensures
            final(canvas).wf(),
            final(canvas)@ == old(canvas)@.with_pixels(
                self.painted(old(canvas)@, canvas_x as int, canvas_y as int),
            ),
    ;
}

/// A value that gives a pixel its colour. It sees the value that the pixel
/// had and the pixel's position in the buffer, and changes nothing itself.
pub trait Color {
    /// The pixel type this colour produces.
    type T: Copy;

    /// The value for the pixel at buffer position `index` that held
    /// `previous`. A colour that does not say what it gives must give the
    /// pixel its own value back.
    open spec fn shade(&self, previous: Self::T, index: int) -> Self::T {
        previous
    }

    /// Computes the value for the pixel at buffer position `index` that held
    /// `previous`.
    fn pixel(&self, previous: Self::T, index: usize) -> (p: Self::T)
        ensures
            p == self.shade(previous, index as int),
    ;
}

/// The pixels after `c` has coloured the block of `w` by `h` cells at
/// `(x, y)`. Each pixel of the block gets the shade of what it held; every
/// other pixel keeps its value.
pub open spec fn shaded<C: Color>(
    s: CanvasView<C::T>,
    x: int,
    y: int,
    w: int,
    h: int,
    c: C,
) -> Seq<C::T> {
    Seq::new(
        s.pixels.len(),
        |i: int| if s.covers(x, y, w, h, i) { c.shade(s.pixels[i], i) } else { s.pixels[i] },
    )
}

/// The canvas after `d` has been drawn at each of `cells` in turn.
pub open spec fn paint_cells<D: Draw>(
    d: &D,
    s: CanvasView<D::T>,
    cells: Seq<(int, int)>,
) -> CanvasView<D::T>
    decreases cells.len(),
{
    if cells.len() == 0 {
        s
    } else {
        let earlier = paint_cells(d, s, cells.drop_last());
        earlier.with_pixels(d.painted(earlier, cells.last().0, cells.last().1))
    }
}

/// Drawing changes pixels only: the canvas keeps its sizes and its mode.
pub proof fn lemma_paint_cells_geometry<D: Draw>(
    d: &D,
    s: CanvasView<D::T>,
    cells: Seq<(int, int)>,
)
    ensures
        paint_cells(d, s, cells).with_pixels(s.pixels) == s,
    decreases cells.len(),
{
    if cells.len() > 0 {
        lemma_paint_cells_geometry(d, s, cells.drop_last());
    }
}

/// Drawing at the first `k + 1` cells is drawing at the first `k` and then
/// at cell `k`.
pub proof fn lemma_paint_cells_next<D: Draw>(
    d: &D,
    s: CanvasView<D::T>,
    cells: Seq<(int, int)>,
    k: int,
)
    requires
        0 <= k < cells.len(),
    ensures
        ({
            let earlier = paint_cells(d, s, cells.take(k));
            paint_cells(d, s, cells.take(k + 1)) == earlier.with_pixels(
                d.painted(earlier, cells[k].0, cells[k].1),
            )
        }),
{
    assert(cells.take(k + 1).drop_last() =~= cells.take(k));
}

} // verus!
