//! What holds of drawing on every canvas.

use vstd::prelude::*;
use crate::paint::{lemma_paint_cells_next, paint_cells, shaded};
use crate::scale::{
    lemma_edge_advances, lemma_edge_monotonic, lemma_edge_periodic, AddressingMode,
};
use crate::shapes::{reach, rect_cells, Pixel};
use vstd::arithmetic::div_mod::{lemma_fundamental_div_mod, lemma_fundamental_div_mod_converse};
use crate::view::{lemma_pixel_position, CanvasView};

verus! {

/// Blocks that lie side by side tile the surface: to fill `w1` columns of
/// cells and then the `w2` columns next to them gives the same pixels as to
/// fill the block of `w1 + w2` columns at once. Nothing is left out between
/// the two and nothing is filled that the wide block does not cover.
///
/// The second block must begin where the first ends. That fails where
/// clamping or wrapping sends `x + w1` to another column.
pub proof fn lemma_blocks_tile<T>(
    s: CanvasView<T>,
    x: int,
    y: int,
    w1: int,
    w2: int,
    h: int,
    v: T,
)
    requires
        s.wf(),
        0 <= w1,
        0 <= w2,
        s.column(x + w1) == s.column(x) + w1,
    ensures
        s.with_pixels(s.solid(x, y, w1, h, v)).solid(x + w1, y, w2, h, v) == s.solid(
            x,
            y,
            w1 + w2,
            h,
            v,
        ),
{
    let c = s.column(x);
    let first = s.with_pixels(s.solid(x, y, w1, h, v));
    lemma_edge_monotonic(c, c + w1, s.surface_width as int, s.canvas_width as int);
    lemma_edge_monotonic(c + w1, c + w1 + w2, s.surface_width as int, s.canvas_width as int);
    assert(first.solid(x + w1, y, w2, h, v) =~= s.solid(x, y, w1 + w2, h, v));
}

/// Blocks that lie one below the other tile the surface: to fill `h1` rows
/// of cells and then the `h2` rows below them gives the same pixels as to
/// fill the block of `h1 + h2` rows at once.
///
/// The second block must begin where the first ends. That fails where
/// clamping or wrapping sends `y + h1` to another row.
pub proof fn lemma_blocks_stack<T>(
    s: CanvasView<T>,
    x: int,
    y: int,
    w: int,
    h1: int,
    h2: int,
    v: T,
)
    requires
        s.wf(),
        0 <= h1,
        0 <= h2,
        s.row(y + h1) == s.row(y) + h1,
    ensures
        s.with_pixels(s.solid(x, y, w, h1, v)).solid(x, y + h1, w, h2, v) == s.solid(
            x,
            y,
            w,
            h1 + h2,
            v,
        ),
{
    let r = s.row(y);
    let first = s.with_pixels(s.solid(x, y, w, h1, v));
    lemma_edge_monotonic(r, r + h1, s.surface_height as int, s.canvas_height as int);
    lemma_edge_monotonic(r + h1, r + h1 + h2, s.surface_height as int, s.canvas_height as int);
    assert(first.solid(x, y + h1, w, h2, v) =~= s.solid(x, y, w, h1 + h2, v));
}

/// Two cells side by side, filled one after the other, give the same pixels
/// as the block of two cells filled in one pass, whatever the scale factor.
///
/// The two cells must be neighbours on the canvas, which `x` and `x + 1`
/// are unless clamping or wrapping comes between them.
pub proof fn lemma_adjacent_cells_tile<T: Copy>(s: CanvasView<T>, x: int, y: int, v: T)
    requires
        s.wf(),
        s.column(x + 1) == s.column(x) + 1,
    ensures
        s.with_pixels(s.put(x, y, v)).put(x + 1, y, v) == s.solid(x, y, 2, 1, v),
        s.with_pixels(s.put(x, y, v)).put(x + 1, y, v) == shaded(s, x, y, 2, 1, Pixel(v)),
{
    lemma_blocks_tile(s, x, y, 1, 1, 1, v);
    assert(s.solid(x, y, 2, 1, v) =~= shaded(s, x, y, 2, 1, Pixel(v)));
}

/// The column that the `i`-th cell to the right of logical `x` addresses.
pub open spec fn column_after<T>(s: CanvasView<T>, x: int, i: int) -> int {
    s.column(x + i)
}

/// The row that the `j`-th cell below logical `y` addresses.
pub open spec fn row_after<T>(s: CanvasView<T>, y: int, j: int) -> int {
    s.row(y + j)
}

/// Whether the block of `w` by `h` cells at `(x, y)` lies on the canvas as
/// it is written: each of its cells addresses the column and the row next
/// to those of the cell before it, none is moved by clamping or wrapping.
pub open spec fn unbroken<T>(s: CanvasView<T>, x: int, y: int, w: int, h: int) -> bool {
    &&& forall|i: int| 0 <= i < w ==> #[trigger] column_after(s, x, i) == s.column(x) + i
    &&& forall|j: int| 0 <= j < h ==> #[trigger] row_after(s, y, j) == s.row(y) + j
}

/// The pixels after `j` whole rows of a block `w` cells wide have been
/// filled with `v`, and the first `i` cells of the row after them.
pub open spec fn partly_filled<T>(
    s: CanvasView<T>,
    x: int,
    y: int,
    w: int,
    j: int,
    i: int,
    v: T,
) -> Seq<T> {
    Seq::new(
        s.pixels.len(),
        |p: int|
            if s.covers(x, y, w, j, p) || (s.spans_column(x, i, p % (s.surface_width as int))
                && s.y_edge(s.row(y) + j) <= p / (s.surface_width as int) < s.y_edge(
                s.row(y) + j + 1,
            )) {
                v
            } else {
                s.pixels[p]
            },
    )
}

proof fn lemma_rect_prefix<T: Copy>(
    s: CanvasView<T>,
    x: int,
    y: int,
    w: int,
    h: int,
    v: T,
    k: int,
)
    requires
        s.wf(),
        0 < w,
        0 < h,
        unbroken(s, x, y, w, h),
        0 <= k <= w * h,
    ensures
        paint_cells(&Pixel(v), s, Seq::new((w * h) as nat, |n: int| (x + n % w, y + n / w)).take(k))
            == s.with_pixels(partly_filled(s, x, y, w, k / w, k % w, v)),
    decreases k,
{
    let cells = Seq::new((w * h) as nat, |n: int| (x + n % w, y + n / w));
    let sw = s.surface_width as int;
    let sh = s.surface_height as int;
    let c = s.column(x);
    let r = s.row(y);
    if k == 0 {
        assert(cells.take(0) =~= Seq::empty());
        assert(0int / w == 0 && 0int % w == 0) by {
            lemma_fundamental_div_mod_converse(0, w, 0, 0);
        }
        assert(s.pixels =~= partly_filled(s, x, y, w, 0, 0, v));
    } else {
        lemma_rect_prefix(s, x, y, w, h, v, k - 1);
        lemma_paint_cells_next(&Pixel(v), s, cells, k - 1);
        let j = (k - 1) / w;
        let i = (k - 1) % w;
        lemma_fundamental_div_mod(k - 1, w);
        assert(w * j == j * w) by (nonlinear_arith);
        assert(0 <= j < h) by (nonlinear_arith)
            requires
                k - 1 == j * w + i,
                0 <= i < w,
                0 <= k - 1 < w * h,
        ;
        let earlier = s.with_pixels(partly_filled(s, x, y, w, j, i, v));
        let now = earlier.put(x + i, y + j, v);
        assert(column_after(s, x, i) == c + i);
        assert(row_after(s, y, j) == r + j);
        lemma_edge_monotonic(c, c + i, sw, s.canvas_width as int);
        lemma_edge_monotonic(c + i, c + i + 1, sw, s.canvas_width as int);
        lemma_edge_monotonic(r, r + j, sh, s.canvas_height as int);
        lemma_edge_monotonic(r + j, r + j + 1, sh, s.canvas_height as int);
        if i + 1 < w {
            lemma_fundamental_div_mod_converse(k, w, j, i + 1);
            assert(now =~= partly_filled(s, x, y, w, j, i + 1, v));
        } else {
            assert(k == (j + 1) * w + 0) by (nonlinear_arith)
                requires
                    k - 1 == j * w + i,
                    i + 1 == w,
            ;
            lemma_fundamental_div_mod_converse(k, w, j + 1, 0);
            assert(now =~= partly_filled(s, x, y, w, j + 1, 0, v));
        }
    }
}

/// Cells tile without gaps or overlaps: to fill a block cell by cell gives
/// the same pixels as to fill its whole rectangle on the surface in one
/// pass. The block is taken as far as its cells have coordinates, and must
/// lie on the canvas unbroken.
pub proof fn lemma_rect_of_pixels_is_solid<T: Copy>(
    s: CanvasView<T>,
    x: int,
    y: int,
    w: int,
    h: int,
    v: T,
)
    requires
        s.wf(),
        0 <= w,
        0 <= h,
        x <= i32::MAX,
        y <= i32::MAX,
        unbroken(s, x, y, reach(x, w), reach(y, h)),
    ensures
        paint_cells(&Pixel(v), s, rect_cells(x, y, w, h)) == s.with_pixels(
            s.solid(x, y, reach(x, w), reach(y, h), v),
        ),
        paint_cells(&Pixel(v), s, rect_cells(x, y, w, h)) == s.with_pixels(
            shaded(s, x, y, reach(x, w), reach(y, h), Pixel(v)),
        ),
{
    let cols = reach(x, w);
    let rows = reach(y, h);
    let cells = rect_cells(x, y, w, h);
    assert(s.solid(x, y, cols, rows, v) =~= shaded(s, x, y, cols, rows, Pixel(v)));
    if cols == 0 || rows == 0 {
        assert(cols * rows == 0) by (nonlinear_arith)
            requires
                cols == 0 || rows == 0,
        ;
        assert(cells =~= Seq::empty());
        assert(s.pixels =~= s.solid(x, y, cols, rows, v));
    } else {
        assert(cols * rows >= 0) by (nonlinear_arith)
            requires
                cols > 0,
                rows > 0,
        ;
        lemma_rect_prefix(s, x, y, cols, rows, v, cols * rows);
        assert(cells.take(cols * rows) =~= cells);
        assert(cols * rows == rows * cols + 0) by (nonlinear_arith);
        lemma_fundamental_div_mod_converse(cols * rows, cols, rows, 0);
        assert(partly_filled(s, x, y, cols, rows, 0, v) =~= s.solid(x, y, cols, rows, v));
    }
}

/// Whether logical `(x, y)` addresses a cell of the canvas. Under wrapping
/// every coordinate does; under clamping those below the far edges do.
pub open spec fn on_canvas<T>(s: CanvasView<T>, x: int, y: int) -> bool {
    s.column(x) < s.canvas_width && s.row(y) < s.canvas_height
}

/// Where the surface is at least as large as the canvas, the pixel that is
/// read for a cell of the canvas is the first pixel of that cell.
pub proof fn lemma_probe_in_cell<T>(s: CanvasView<T>, x: int, y: int)
    requires
        s.wf(),
        s.surface_width >= s.canvas_width,
        s.surface_height >= s.canvas_height,
        on_canvas(s, x, y),
    ensures
        0 <= s.probe(x, y) < s.pixels.len(),
        s.probe(x, y) % (s.surface_width as int) == s.x_edge(s.column(x)),
        s.probe(x, y) / (s.surface_width as int) == s.y_edge(s.row(y)),
        s.covers(x, y, 1, 1, s.probe(x, y)),
{
    let c = s.column(x);
    let r = s.row(y);
    let sw = s.surface_width as int;
    let sh = s.surface_height as int;
    let cw = s.canvas_width as int;
    let ch = s.canvas_height as int;
    lemma_edge_advances(c, sw, cw);
    lemma_edge_advances(r, sh, ch);
    lemma_edge_periodic(0, sw, cw);
    lemma_edge_periodic(0, sh, ch);
    lemma_edge_monotonic(0, c, sw, cw);
    lemma_edge_monotonic(0, r, sh, ch);
    lemma_edge_monotonic(c + 1, cw, sw, cw);
    lemma_edge_monotonic(r + 1, ch, sh, ch);
    lemma_pixel_position(s.x_edge(c), s.y_edge(r), sw, sh);
}

/// A cell that has been filled reads as the value it was filled with, where
/// the surface is at least as large as the canvas and the cell is on the
/// canvas.
pub proof fn lemma_put_then_get<T>(s: CanvasView<T>, x: int, y: int, v: T)
    requires
        s.wf(),
        s.surface_width >= s.canvas_width,
        s.surface_height >= s.canvas_height,
        on_canvas(s, x, y),
    ensures
        s.with_pixels(s.put(x, y, v)).probe(x, y) == s.probe(x, y),
        s.put(x, y, v)[s.probe(x, y)] == v,
{
    lemma_probe_in_cell(s, x, y);
}

/// Filling a cell leaves every other cell of the canvas reading as before,
/// where the surface is at least as large as the canvas.
pub proof fn lemma_put_leaves_other_cells<T>(
    s: CanvasView<T>,
    x: int,
    y: int,
    v: T,
    other_x: int,
    other_y: int,
)
    requires
        s.wf(),
        s.surface_width >= s.canvas_width,
        s.surface_height >= s.canvas_height,
        on_canvas(s, other_x, other_y),
        s.column(other_x) != s.column(x) || s.row(other_y) != s.row(y),
    ensures
        s.put(x, y, v)[s.probe(other_x, other_y)] == s.pixels[s.probe(other_x, other_y)],
{
    let sw = s.surface_width as int;
    let sh = s.surface_height as int;
    let cw = s.canvas_width as int;
    let ch = s.canvas_height as int;
    lemma_probe_in_cell(s, other_x, other_y);
    let c = s.column(x);
    let r = s.row(y);
    let oc = s.column(other_x);
    let or = s.row(other_y);
    if oc < c {
        lemma_edge_monotonic(oc + 1, c, sw, cw);
    } else if oc > c {
        lemma_edge_monotonic(c + 1, oc, sw, cw);
    } else if or < r {
        lemma_edge_monotonic(or + 1, r, sh, ch);
    } else {
        lemma_edge_monotonic(r + 1, or, sh, ch);
    }
}

/// Under wrapping the canvas repeats: a coordinate one canvas width further
/// on, or one canvas height further down, addresses the same cell, so
/// filling there gives the same pixels. In particular `(-1, -1)` is the
/// last cell of the last row.
pub proof fn lemma_wrap_repeats<T>(s: CanvasView<T>, x: int, y: int, v: T)
    requires
        s.wf(),
        s.mode == AddressingMode::Wrap,
    ensures
        s.put(x + s.canvas_width, y, v) == s.put(x, y, v),
        s.put(x, y + s.canvas_height, v) == s.put(x, y, v),
        s.put(-1, -1, v) == s.put(s.canvas_width - 1, s.canvas_height - 1, v),
{
    let cw = s.canvas_width as int;
    let ch = s.canvas_height as int;
    lemma_shifted_remainder(x, cw);
    lemma_shifted_remainder(y, ch);
    lemma_shifted_remainder(-1, cw);
    lemma_shifted_remainder(-1, ch);
    assert(s.put(x + s.canvas_width, y, v) =~= s.put(x, y, v));
    assert(s.put(x, y + s.canvas_height, v) =~= s.put(x, y, v));
    assert(s.put(-1, -1, v) =~= s.put(s.canvas_width - 1, s.canvas_height - 1, v));
}

proof fn lemma_shifted_remainder(a: int, d: int)
    requires
        d > 0,
    ensures
        (a + d) % d == a % d,
{
    vstd::arithmetic::div_mod::lemma_mod_add_multiples_vanish(a, d);
}

} // verus!
