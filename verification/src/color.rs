//! Colours for canvases of `u32` pixels.

use vstd::prelude::*;
use crate::canvas::Canvas;
use crate::paint::{Color, Draw};
use crate::view::CanvasView;

verus! {

pub const RED: u32 = 0xff0000;

pub const GREEN: u32 = 0x00ff00;

pub const BLUE: u32 = 0x0000ff;

pub const WHITE: u32 = 0xffffff;

pub const YELLOW: u32 = 0xffff00;

/// A colour of a `u32` pixel: three channels that are packed as
/// `0x00RRGGBB`, or a pixel value in a format of the caller's own.
#[derive(Clone, Copy, Debug, PartialEq, Eq, Structural)]
pub enum RGBu32 {
    Rgb(u8, u8, u8),
    Pixel(u32),
}

impl RGBu32 {
    /// The pixel value that this colour stands for.
    pub open spec fn value(self) -> u32 {
        match self {
            RGBu32::Rgb(red, green, blue) => (red * 0x10000 + green * 0x100 + blue) as u32,
            RGBu32::Pixel(p) => p,
        }
    }

    /// Computes the pixel value that this colour stands for.
    pub fn packed(&self) -> (p: u32)
        ensures
            p == self.value(),
    {
        match self {
            RGBu32::Rgb(red, green, blue) => {
                let r: u32 = *red as u32;
                let g: u32 = *green as u32;
                let b: u32 = *blue as u32;
                assert(((r << 16) | (g << 8) | b) == r * 0x10000 + g * 0x100 + b) by (bit_vector)
                    requires
                        r < 0x100,
                        g < 0x100,
                        b < 0x100,
                ;
                (r << 16) | (g << 8) | b
            },
            RGBu32::Pixel(p) => *p,
        }
    }
}

impl Color for RGBu32 {
    type T = u32;

    open spec fn shade(&self, previous: u32, index: int) -> u32 {
        self.value()
    }

    fn pixel(&self, previous: u32, index: usize) -> (p: u32) {
        self.packed()
    }
}

impl Draw for RGBu32 {
    type T = u32;

    open spec fn painted(&self, before: CanvasView<u32>, x: int, y: int) -> Seq<u32> {
        before.put(x, y, self.value())
    }

    fn draw(&self, canvas: &mut Canvas<u32>, canvas_x: i32, canvas_y: i32) {
        canvas.put(canvas_x, canvas_y, self.packed());
    }
}

/// A `u32` is a colour of its own value, so the named colours above can be
/// handed to whatever takes a colour.
impl Color for u32 {
    type T = u32;

    open spec fn shade(&self, previous: u32, index: int) -> u32 {
        *self
    }

    fn pixel(&self, previous: u32, index: usize) -> (p: u32) {
        *self
    }
}

/// A `u32` draws itself by filling the cell it is drawn at.
impl Draw for u32 {
    type T = u32;

    open spec fn painted(&self, before: CanvasView<u32>, x: int, y: int) -> Seq<u32> {
        before.put(x, y, *self)
    }

    fn draw(&self, canvas: &mut Canvas<u32>, canvas_x: i32, canvas_y: i32) {
        canvas.put(canvas_x, canvas_y, *self);
    }
}

} // verus!
