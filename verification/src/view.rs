//! The mathematical model of a canvas: its pixels as a sequence, its two
//! resolutions, and the surface region that each logical cell stands for.

use vstd::prelude::*;
use vstd::arithmetic::div_mod::{lemma_fundamental_div_mod, lemma_fundamental_div_mod_converse};
use crate::scale::{address, clip, edge, AddressingMode};

verus! {

/// What a canvas is, as plain mathematics. The surface pixels are stored row
/// by row: pixel `(px, py)` is `pixels[py * surface_width + px]`.
pub struct CanvasView<T> {
    pub pixels: Seq<T>,
    pub surface_width: nat,
    pub surface_height: nat,
    pub canvas_width: nat,
    pub canvas_height: nat,
    pub mode: AddressingMode,
}

impl<T> CanvasView<T> {
    /// All four dimensions are positive and the buffer holds exactly one
    /// value per surface pixel.
    pub open spec fn wf(self) -> bool {
        &&& self.surface_width > 0
        &&& self.surface_height > 0
        &&& self.canvas_width > 0
        &&& self.canvas_height > 0
        &&& self.pixels.len() == self.surface_width * self.surface_height
    }

    /// The same canvas with other pixel values.
    pub open spec fn with_pixels(self, pixels: Seq<T>) -> Self {
        CanvasView { pixels, ..self }
    }

    /// The column of cells that logical `x` addresses.
    pub open spec fn column(self, x: int) -> int {
        address(self.mode, x, self.canvas_width as int)
    }

    /// The row of cells that logical `y` addresses.
    pub open spec fn row(self, y: int) -> int {
        address(self.mode, y, self.canvas_height as int)
    }

    /// Surface x coordinate at which cell column `k` begins.
    pub open spec fn x_edge(self, k: int) -> int {
        edge(k, self.surface_width as int, self.canvas_width as int)
    }

    /// Surface y coordinate at which cell row `k` begins.
    pub open spec fn y_edge(self, k: int) -> int {
        edge(k, self.surface_height as int, self.canvas_height as int)
    }

    /// Whether surface column `px` lies in the block of `w` cell columns
    /// whose first column logical `x` addresses.
    pub open spec fn spans_column(self, x: int, w: int, px: int) -> bool {
        self.x_edge(self.column(x)) <= px < self.x_edge(self.column(x) + w)
    }

    /// Whether surface row `py` lies in the block of `h` cell rows whose
    /// first row logical `y` addresses.
    pub open spec fn spans_row(self, y: int, h: int, py: int) -> bool {
        self.y_edge(self.row(y)) <= py < self.y_edge(self.row(y) + h)
    }

    /// Whether the pixel stored at buffer position `i` lies in the block of
    /// `w` by `h` cells whose first cell logical `(x, y)` addresses. The block
    /// reaches from the leading edge of its first cell to the leading edge
    /// of the cell after its last; what lies past the surface is no pixel.
    pub open spec fn covers(self, x: int, y: int, w: int, h: int, i: int) -> bool {
        &&& self.spans_column(x, w, i % (self.surface_width as int))
        &&& self.spans_row(y, h, i / (self.surface_width as int))
    }

    /// The pixels after the block of `w` by `h` cells at `(x, y)` has been
    /// given the one value `v`.
    pub open spec fn solid(self, x: int, y: int, w: int, h: int, v: T) -> Seq<T> {
        Seq::new(
            self.pixels.len(),
            |i: int| if self.covers(x, y, w, h, i) { v } else { self.pixels[i] },
        )
    }

    /// The pixels after cell `(x, y)` has been given the value `v`.
    pub open spec fn put(self, x: int, y: int, v: T) -> Seq<T> {
        self.solid(x, y, 1, 1, v)
    }

    /// The pixels after every one of them has been given the value `v`.
    pub open spec fn filled(self, v: T) -> Seq<T> {
        Seq::new(self.pixels.len(), |i: int| v)
    }

    /// Buffer position of the pixel that stands for cell `(x, y)` when it is
    /// read: the first pixel of the cell, or the nearest pixel on the
    /// surface's far edge where the cell begins past it.
    pub open spec fn probe(self, x: int, y: int) -> int {
        let px = clip(self.x_edge(self.column(x)), self.surface_width - 1);
        let py = clip(self.y_edge(self.row(y)), self.surface_height - 1);
        py * self.surface_width + px
    }
    /// The canvas after its surface has been given `width` by `height`
    /// pixels, every one of the value `v`.
    pub open spec fn resized(self, width: nat, height: nat, v: T) -> Self {
        CanvasView {
            pixels: Seq::new(width * height, |i: int| v),
            surface_width: width,
            surface_height: height,
            ..self
        }
    }

    /// Position, in an image of `source_size` pixels stored row by row, of
    /// the pixel nearest to the pixel at buffer position `i`, when the image
    /// is stretched over the block of `dest_size` cells at `(x, y)`: along
    /// each axis, the whole part of the pixel's offset within the block,
    /// divided by the block's extent and multiplied by the image's extent.
    pub open spec fn sample(
        self,
        x: int,
        y: int,
        source_size: (int, int),
        dest_size: (int, int),
        i: int,
    ) -> int {
        let left = self.x_edge(self.column(x));
        let top = self.y_edge(self.row(y));
        let across = self.x_edge(self.column(x) + dest_size.0) - left;
        let down = self.y_edge(self.row(y) + dest_size.1) - top;
        let local_x = i % (self.surface_width as int) - left;
        let local_y = i / (self.surface_width as int) - top;
        local_x * source_size.0 / across + (local_y * source_size.1 / down) * source_size.0
    }

    /// The pixels after the image `source` of `source_size` pixels has been
    /// stretched over the block of `dest_size` cells at `(x, y)`. Each pixel
    /// of the block takes the value of its nearest image pixel; one whose
    /// nearest image pixel `source` does not hold keeps its value.
    pub open spec fn textured(
        self,
        source: Seq<T>,
        x: int,
        y: int,
        source_size: (int, int),
        dest_size: (int, int),
    ) -> Seq<T> {
        Seq::new(
            self.pixels.len(),
            |i: int|
                if self.covers(x, y, dest_size.0, dest_size.1, i) && self.sample(
                    x,
                    y,
                    source_size,
                    dest_size,
                    i,
                ) < source.len() {
                    source[self.sample(x, y, source_size, dest_size, i)]
                } else {
                    self.pixels[i]
                },
        )
    }
}

/// Pixel `(px, py)` of a surface is stored at position `py * width + px`,
/// which lies within the buffer, and its row and column can be read back
/// from that position.
pub proof fn lemma_pixel_position(px: int, py: int, width: int, height: int)
    requires
        0 <= px < width,
        0 <= py < height,
    ensures
        0 <= py * width + px < width * height,
        (py * width + px) / width == py,
        (py * width + px) % width == px,
{
    assert(py * width + px < width * height && py * width >= 0) by (nonlinear_arith)
        requires
            0 <= px < width,
            0 <= py < height,
    ;
    lemma_fundamental_div_mod_converse(py * width + px, width, py, px);
}

/// A position within the buffer lies in one of the surface's rows.
pub proof fn lemma_row_on_surface(i: int, width: int, height: int)
    requires
        0 <= i < width * height,
        width > 0,
    ensures
        0 <= i / width < height,
        0 <= i % width < width,
{
    lemma_fundamental_div_mod(i, width);
    let q = i / width;
    assert(q < height && q >= 0) by (nonlinear_arith)
        requires
            i == width * q + i % width,
            0 <= i % width < width,
            0 <= i < width * height,
            width > 0,
    ;
}

} // verus!
