//! Stretching an image over a block of cells, each surface pixel taking the
//! value of the image pixel nearest to it.

use vstd::prelude::*;
use vstd::arithmetic::div_mod::lemma_fundamental_div_mod;
use crate::canvas::Canvas;
use crate::paint::Color;
use crate::scale::extent;
use crate::view::lemma_row_on_surface;

verus! {

/// An image laid over a rectangle of the surface. As a colour it gives each
/// pixel of the rectangle the value of the image pixel nearest to it.
pub struct Sampler<'a, T> {
    /// The image's pixels, row by row.
    pub source: &'a [T],
    /// The image's width and height.
    pub source_size: (usize, usize),
    /// The width of the surface.
    pub width: usize,
    /// The surface pixel on which the image's first pixel lies.
    pub origin: (usize, usize),
    /// The width and height of the rectangle on the surface.
    pub size: (u128, u128),
}

impl<'a, T: Copy> Sampler<'a, T> {
    /// Whether the pixel at buffer position `index` lies in the rectangle.
    pub open spec fn holds(&self, index: int) -> bool {
        &&& self.width > 0
        &&& 0 <= index % (self.width as int) - self.origin.0 < self.size.0
        &&& 0 <= index / (self.width as int) - self.origin.1 < self.size.1
    }

    /// Position in the image of the pixel nearest to the pixel at buffer
    /// position `index`.
    pub open spec fn nearest(&self, index: int) -> int {
        let local_x = index % (self.width as int) - self.origin.0;
        let local_y = index / (self.width as int) - self.origin.1;
        local_x * self.source_size.0 / (self.size.0 as int) + (local_y * self.source_size.1 / (
        self.size.1 as int)) * self.source_size.0
    }
}

impl<'a, T: Copy> Color for Sampler<'a, T> {
    type T = T;

    open spec fn shade(&self, previous: T, index: int) -> T {
        if self.holds(index) && self.nearest(index) < self.source@.len() {
            self.source@[self.nearest(index)]
        } else {
            previous
        }
    }

    fn pixel(&self, previous: T, index: usize) -> (p: T) {
        if self.width == 0 {
            return previous;
        }
        let px: usize = index % self.width;
        let py: usize = index / self.width;
        if px < self.origin.0 || py < self.origin.1 {
            return previous;
        }
        let local_x: u128 = (px - self.origin.0) as u128;
        let local_y: u128 = (py - self.origin.1) as u128;
        if local_x >= self.size.0 || local_y >= self.size.1 {
            return previous;
        }
        proof {
            lemma_scaled_below(local_x as int, self.source_size.0 as int, self.size.0 as int);
            lemma_scaled_below(local_y as int, self.source_size.1 as int, self.size.1 as int);
        }
        let column: u128 = local_x * (self.source_size.0 as u128) / self.size.0;
        let row: u128 = local_y * (self.source_size.1 as u128) / self.size.1;
        assert(row * self.source_size.0 <= 0xffff_ffff_ffff_ffff * 0xffff_ffff_ffff_ffff)
            by (nonlinear_arith)
            requires
                0 <= row <= 0xffff_ffff_ffff_ffff,
                0 <= self.source_size.0 <= 0xffff_ffff_ffff_ffff,
        ;
        let at: u128 = column + row * (self.source_size.0 as u128);
        if at < self.source.len() as u128 {
            self.source[at as usize]
        } else {
            previous
        }
    }
}

/// An offset within an extent, scaled to another extent, stays within that
/// other extent.
proof fn lemma_scaled_below(offset: int, to: int, from: int)
    requires
        0 <= offset < from,
        0 <= to <= usize::MAX,
        offset <= usize::MAX,
    ensures
        0 <= offset * to <= 0xffff_ffff_ffff_ffff * 0xffff_ffff_ffff_ffff,
        0 <= offset * to / from <= to,
        offset * to / from <= usize::MAX,
{
    assert(0 <= offset * to <= 0xffff_ffff_ffff_ffff * 0xffff_ffff_ffff_ffff && offset * to
        <= from * to) by (nonlinear_arith)
        requires
            0 <= offset < from,
            offset <= 0xffff_ffff_ffff_ffff,
            0 <= to <= 0xffff_ffff_ffff_ffff,
    ;
    let q = offset * to / from;
    lemma_fundamental_div_mod(offset * to, from);
    assert(0 <= q <= to) by (nonlinear_arith)
        requires
            offset * to == from * q + (offset * to) % from,
            0 <= (offset * to) % from < from,
            0 <= offset * to <= from * to,
            to >= 0,
    ;
}

impl<T: Copy> Canvas<T> {
    /// Stretches the image `source_pixels` of `source_size` pixels, stored
    /// row by row, over the block of `dest_size` cells whose first cell
    /// logical `(x, y)` addresses. Every surface pixel of the block takes the
    /// value of the image pixel nearest to it.
    pub fn texture(
        &mut self,
        source_pixels: &[T],
        x: i32,
        y: i32,
        source_size: (usize, usize),
        dest_size: (u32, u32),
    )
        requires
            old(self).wf(),
        ensures
            final(self).wf(),
            final(self)@ == old(self)@.with_pixels(
                old(self)@.textured(
                    source_pixels@,
                    x as int,
                    y as int,
                    (source_size.0 as int, source_size.1 as int),
                    (dest_size.0 as int, dest_size.1 as int),
                ),
            ),
    {
        let ghost before = self@;
        let ghost goal = before.textured(
            source_pixels@,
            x as int,
            y as int,
            (source_size.0 as int, source_size.1 as int),
            (dest_size.0 as int, dest_size.1 as int),
        );
        let surface = self.surface_size();
        let canvas = self.canvas_size();
        let across = extent(self.mode(), x, dest_size.0, surface.0, canvas.0);
        let down = extent(self.mode(), y, dest_size.1, surface.1, canvas.1);
        if across.0 >= surface.0 as u128 || down.0 >= surface.1 as u128 {
            proof {
                assert forall|i: int| 0 <= i < before.pixels.len() implies goal[i]
                    == before.pixels[i] by {
                    lemma_row_on_surface(i, surface.0 as int, surface.1 as int);
                }
                assert(before.pixels =~= goal);
            }
            return ;
        }
        let sampler = Sampler {
            source: source_pixels,
            source_size,
            width: surface.0,
            origin: (across.0 as usize, down.0 as usize),
            size: ((across.1 - across.0) as u128, (down.1 - down.0) as u128),
        };
        self.shade(x, y, dest_size.0 as usize, dest_size.1 as usize, &sampler);
        proof {
            assert(self@.pixels =~= goal);
        }
    }
}

} // verus!
