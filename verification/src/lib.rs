//! Pixel-art rendering at a low logical resolution onto a surface of another
//! resolution.
//!
//! A canvas owns a buffer of surface pixels and addresses it in logical
//! cells. Every cell maps to a rectangle of surface pixels; neighbouring cells
//! share their edges, so the cells tile the surface without gaps or overlaps.

pub mod canvas;
pub mod color;
pub mod laws;
pub mod line;
pub mod paint;
pub mod scale;
pub mod shapes;
pub mod texture;
pub mod view;

pub use canvas::{Block, Canvas, CanvasError, Ratio};
pub use color::{RGBu32, BLUE, GREEN, RED, WHITE, YELLOW};
pub use paint::{Color, Draw};
pub use scale::{extent, locate, modv2, resolve, round, scale, span, AddressingMode};
pub use shapes::{Line, Pixel, Rect, SolidRect};
pub use texture::Sampler;
pub use view::CanvasView;
