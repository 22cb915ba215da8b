//! The shapes that can be drawn on a canvas.

use vstd::prelude::*;
use crate::canvas::Canvas;
use crate::line::{
    advance, distance, lemma_line_ends, lemma_walk_bounded, lemma_walk_step, line_cell,
    line_cells, line_len, on_line, walk_error,
};
use crate::paint::{
    lemma_paint_cells_geometry, lemma_paint_cells_next, paint_cells, shaded, Color, Draw,
};
use crate::view::{lemma_pixel_position, CanvasView};

verus! {

/// One value that fills the cell it is drawn at.
pub struct Pixel<T: Copy>(pub T);

impl<T: Copy> Color for Pixel<T> {
    type T = T;

    open spec fn shade(&self, previous: T, index: int) -> T {
        self.0
    }

    fn pixel(&self, previous: T, index: usize) -> (p: T) {
        self.0
    }
}

impl<T: Copy> Draw for Pixel<T> {
    type T = T;

    open spec fn painted(&self, before: CanvasView<T>, x: int, y: int) -> Seq<T> {
        before.put(x, y, self.0)
    }

    fn draw(&self, canvas: &mut Canvas<T>, canvas_x: i32, canvas_y: i32) {
        canvas.put(canvas_x, canvas_y, self.0);
    }
}

/// How many of the `n` cells that begin at coordinate `from` have a
/// coordinate at all: logical coordinates end at `i32::MAX`.
pub open spec fn reach(from: int, n: int) -> int {
    if from + n <= i32::MAX + 1 {
        n
    } else {
        i32::MAX + 1 - from
    }
}

/// The cells of the block of `w` by `h` cells whose first cell is `(x, y)`,
/// row by row, each row from its first cell on.
pub open spec fn rect_cells(x: int, y: int, w: int, h: int) -> Seq<(int, int)> {
    let cols = reach(x, w);
    let rows = reach(y, h);
    Seq::new((cols * rows) as nat, |k: int| (x + k % cols, y + k / cols))
}

/// A rectangle of `w` by `h` cells, each of them drawn with `d`.
pub struct Rect<'a, D: Draw> {
    pub w: usize,
    pub h: usize,
    pub d: &'a D,
}

impl<'a, D: Draw> Draw for Rect<'a, D> {
    type T = D::T;

    open spec fn painted(&self, before: CanvasView<D::T>, x: int, y: int) -> Seq<D::T> {
        paint_cells(self.d, before, rect_cells(x, y, self.w as int, self.h as int)).pixels
    }

    #[verifier::loop_isolation(false)]
    fn draw(&self, canvas: &mut Canvas<D::T>, canvas_x: i32, canvas_y: i32) {
        let ghost start = canvas@;
        let ghost cells = rect_cells(
            canvas_x as int,
            canvas_y as int,
            self.w as int,
            self.h as int,
        );
        let cols: usize = within(canvas_x, self.w);
        let rows: usize = within(canvas_y, self.h);
        let mut j: usize = 0;
        assert(0 * cols == 0);
        assert(cells.take(0) =~= Seq::empty());
        while j < rows
            invariant
                canvas.wf(),
                j <= rows,
                canvas@ == paint_cells(self.d, start, cells.take(j * cols)),
            decreases rows - j,
        {
            let cy: i32 = (canvas_y as i64 + j as i64) as i32;
            let mut i: usize = 0;
            while i < cols
                invariant
                    canvas.wf(),
                    j < rows,
                    i <= cols,
                    canvas@ == paint_cells(self.d, start, cells.take(j * cols + i)),
                decreases cols - i,
            {
                let cx: i32 = (canvas_x as i64 + i as i64) as i32;
                proof {
                    lemma_pixel_position(i as int, j as int, cols as int, rows as int);
                    assert(cols as int * rows as int == rows as int * cols as int)
                        by (nonlinear_arith);
                    lemma_paint_cells_next(self.d, start, cells, j * cols + i);
                }
                self.d.draw(canvas, cx, cy);
                i = i + 1;
            }
            proof {
                assert((j + 1) * cols == j * cols + cols) by (nonlinear_arith);
            }
            j = j + 1;
        }
        proof {
            assert(cols as int * rows as int == rows as int * cols as int) by (nonlinear_arith);
            assert(cells.take(rows * cols) =~= cells);
            lemma_paint_cells_geometry(self.d, start, cells);
        }
    }
}

/// Counts how many of the `n` cells that begin at coordinate `from` have a
/// coordinate.
fn within(from: i32, n: usize) -> (r: usize)
    ensures
        r == reach(from as int, n as int),
        from + r <= i32::MAX + 1,
{
    let room: u64 = (i32::MAX as i64 - from as i64 + 1) as u64;
    if n as u64 <= room {
        n
    } else {
        room as usize
    }
}

/// A line of cells from the cell it is drawn at to the cell
/// `(end_x, end_y)`, both included, each cell drawn with `d`.
pub struct Line<'a, D: Draw> {
    pub end_x: i32,
    pub end_y: i32,
    pub d: &'a D,
}

impl<'a, D: Draw> Draw for Line<'a, D> {
    type T = D::T;

    open spec fn painted(&self, before: CanvasView<D::T>, x: int, y: int) -> Seq<D::T> {
        paint_cells(self.d, before, line_cells(x, y, self.end_x as int, self.end_y as int)).pixels
    }

    fn draw(&self, canvas: &mut Canvas<D::T>, canvas_x: i32, canvas_y: i32) {
        let mut x0: i32 = canvas_x;
        let mut y0: i32 = canvas_y;
        let x1: i32 = self.end_x;
        let y1: i32 = self.end_y;
        let dx: i64 = if x0 < x1 { x1 as i64 - x0 as i64 } else { x0 as i64 - x1 as i64 };
        let sx: i32 = if x0 < x1 { 1 } else { -1 };
        let dy: i64 = if y0 < y1 { y0 as i64 - y1 as i64 } else { y1 as i64 - y0 as i64 };
        let sy: i32 = if y0 < y1 { 1 } else { -1 };
        let mut error: i64 = dx + dy;

        let ghost start = canvas@;
        let ghost cells = line_cells(canvas_x as int, canvas_y as int, x1 as int, y1 as int);
        let ghost last = line_len(canvas_x as int, canvas_y as int, x1 as int, y1 as int) - 1;
        let ghost mut k: int = 0;
        let ghost mut a: int = 0;
        let ghost mut b: int = 0;
        proof {
            lemma_line_ends(canvas_x as int, canvas_y as int, x1 as int, y1 as int);
            assert(cells.take(0) =~= Seq::empty());
            assert(walk_error(dx as int, -dy, 0, 0) == dx + dy) by (nonlinear_arith);
            assert(on_line(dx as int, -dy, 0, 0, 0)) by {
                assert(cells[0] == (canvas_x as int, canvas_y as int));
            }
        }
        loop
            invariant_except_break
                canvas.wf(),
                0 <= k <= last,
                on_line(dx as int, -dy, k, a, b),
                x0 == advance(canvas_x as int, x1 as int, a),
                y0 == advance(canvas_y as int, y1 as int, b),
                error == walk_error(dx as int, -dy, a, b),
                canvas@ == paint_cells(self.d, start, cells.take(k)),
            invariant
                x1 == self.end_x,
                y1 == self.end_y,
                dx == distance(canvas_x as int, x1 as int),
                -dy == distance(canvas_y as int, y1 as int),
                sx == if canvas_x < x1 { 1int } else { -1int },
                sy == if canvas_y < y1 { 1int } else { -1int },
                cells == line_cells(canvas_x as int, canvas_y as int, x1 as int, y1 as int),
                last == line_len(canvas_x as int, canvas_y as int, x1 as int, y1 as int) - 1,
            ensures
                canvas.wf(),
                canvas@ == paint_cells(self.d, start, cells),
            decreases last - k,
        {
            proof {
                lemma_walk_bounded(dx as int, -dy, k, a, b);
                lemma_paint_cells_next(self.d, start, cells, k);
                assert(cells[k] == line_cell(
                    canvas_x as int,
                    canvas_y as int,
                    x1 as int,
                    y1 as int,
                    k,
                ));
            }
            self.d.draw(canvas, x0, y0);
            if x0 == x1 && y0 == y1 {
                proof {
                    assert(k == last);
                    assert(cells.take(k + 1) =~= cells);
                }
                break ;
            }
            proof {
                lemma_line_ends(canvas_x as int, canvas_y as int, x1 as int, y1 as int);
                assert(k < last);
                lemma_walk_step(dx as int, -dy, k, a, b);
            }
            let e2: i64 = 2 * error;
            let ghost a2: int = if e2 >= dy { a + 1 } else { a };
            let ghost b2: int = if e2 <= dx { b + 1 } else { b };
            proof {
                lemma_walk_bounded(dx as int, -dy, k + 1, a2, b2);
            }
            if e2 >= dy {
                if x0 == x1 {
                    // Never taken: a step across is due only while the line
                    // has columns left.
                    proof {
                        assert(false);
                    }
                    break ;
                }
                error = error + dy;
                x0 = x0 + sx;
            }
            if e2 <= dx {
                if y0 == y1 {
                    // Never taken: a step down is due only while the line
                    // has rows left.
                    proof {
                        assert(false);
                    }
                    break ;
                }
                error = error + dx;
                y0 = y0 + sy;
            }
            proof {
                k = k + 1;
                a = a2;
                b = b2;
            }
        }
        proof {
            lemma_paint_cells_geometry(self.d, start, cells);
        }
    }
}

/// A block of `w` by `h` cells coloured by `c` in one pass over its surface
/// pixels.
pub struct SolidRect<'a, C: Color> {
    pub w: usize,
    pub h: usize,
    pub c: &'a C,
}

impl<'a, C: Color> Draw for SolidRect<'a, C> {
    type T = C::T;

    open spec fn painted(&self, before: CanvasView<C::T>, x: int, y: int) -> Seq<C::T> {
        shaded(before, x, y, self.w as int, self.h as int, *self.c)
    }

    fn draw(&self, canvas: &mut Canvas<C::T>, canvas_x: i32, canvas_y: i32) {
        canvas.shade(canvas_x, canvas_y, self.w, self.h, self.c);
    }
}

} // verus!
