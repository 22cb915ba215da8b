//! The cells of a rasterized line.
//!
//! A line from one cell to another takes one step per cell along its longer
//! axis. Along the shorter axis it stays as close to the straight line as
//! whole cells allow, a tie going to the cell further on.

use vstd::prelude::*;
use crate::scale::{
    lemma_round_bracket, lemma_round_monotonic, lemma_round_unique, round_half_up,
};

verus! {

/// The distance between two coordinates.
pub open spec fn distance(a: int, b: int) -> int {
    if a <= b { b - a } else { a - b }
}

/// The coordinate `k` steps from `from` in the direction of `to`.
pub open spec fn advance(from: int, to: int, k: int) -> int {
    if from < to { from + k } else { from - k }
}

/// How far a line that covers `short` cells along one axis while it covers
/// `long` cells along the other has come along the first after `k` steps
/// along the second.
pub open spec fn drift(k: int, short: int, long: int) -> int {
    if long == 0 { 0 } else { round_half_up(k * short, long) }
}

/// The number of cells on the line from `(x0, y0)` to `(x1, y1)`.
pub open spec fn line_len(x0: int, y0: int, x1: int, y1: int) -> nat {
    let dx = distance(x0, x1);
    let dy = distance(y0, y1);
    (if dx >= dy { dx + 1 } else { dy + 1 }) as nat
}

/// The cell that the line from `(x0, y0)` to `(x1, y1)` visits after `k`
/// steps.
pub open spec fn line_cell(x0: int, y0: int, x1: int, y1: int, k: int) -> (int, int) {
    let dx = distance(x0, x1);
    let dy = distance(y0, y1);
    if dx >= dy {
        (advance(x0, x1, k), advance(y0, y1, drift(k, dy, dx)))
    } else {
        (advance(x0, x1, drift(k, dx, dy)), advance(y0, y1, k))
    }
}

/// The cells of the line from `(x0, y0)` to `(x1, y1)`, in the order in
/// which they are visited.
pub open spec fn line_cells(x0: int, y0: int, x1: int, y1: int) -> Seq<(int, int)> {
    Seq::new(line_len(x0, y0, x1, y1), |k: int| line_cell(x0, y0, x1, y1, k))
}

/// Whether two cells touch: they differ by at most one along each axis and
/// are not the same cell.
pub open spec fn adjacent(a: (int, int), b: (int, int)) -> bool {
    &&& distance(a.0, b.0) <= 1
    &&& distance(a.1, b.1) <= 1
    &&& a != b
}

/// The error term that the walk along a line keeps: how far, in units of
/// the line's two extents `dx` and `dy`, the walk has strayed from the
/// straight line after `a` steps across and `b` steps down.
pub open spec fn walk_error(dx: int, dy: int, a: int, b: int) -> int {
    (b + 1) * dx - (a + 1) * dy
}

/// Whether a walk that has taken `a` steps across and `b` steps down stands,
/// after `k` rounds, on the `k`-th cell of a line of extents `dx` and `dy`.
pub open spec fn on_line(dx: int, dy: int, k: int, a: int, b: int) -> bool {
    if dx >= dy {
        a == k && b == drift(k, dy, dx)
    } else {
        a == drift(k, dx, dy) && b == k
    }
}

/// A walk that stands on a cell of the line is within the line's extents,
/// and its error term is small.
pub proof fn lemma_walk_bounded(dx: int, dy: int, k: int, a: int, b: int)
    requires
        0 <= dx,
        0 <= dy,
        0 <= k,
        k <= dx || k <= dy,
        on_line(dx, dy, k, a, b),
    ensures
        0 <= a <= dx,
        0 <= b <= dy,
        -2 * (dx + dy) <= walk_error(dx, dy, a, b) <= 2 * (dx + dy),
{
    let long = if dx >= dy { dx } else { dy };
    let short = if dx >= dy { dy } else { dx };
    let m = drift(k, short, long);
    if long == 0 {
        assert(walk_error(dx, dy, a, b) == 0) by (nonlinear_arith)
            requires
                dx == 0,
                dy == 0,
        ;
    } else {
        assert(0 <= k * short <= long * short) by (nonlinear_arith)
            requires
                0 <= k <= long,
                0 <= short,
        ;
        assert(0 * short == 0);
        lemma_round_unique(0, long, 0);
        lemma_round_monotonic(0, k * short, long);
        lemma_round_monotonic(k * short, long * short, long);
        assert(2 * long * short == 2 * (long * short) && 2 * long * (short + 1) == 2 * (long
            * short) + 2 * long) by (nonlinear_arith);
        lemma_round_unique(long * short, long, short);
        lemma_round_bracket(k * short, long);
        assert(-long <= 2 * (m * long - k * short) <= long) by (nonlinear_arith)
            requires
                2 * long * m <= 2 * (k * short) + long,
                2 * (k * short) + long < 2 * long * (m + 1),
        ;
        if dx >= dy {
            assert(walk_error(dx, dy, a, b) == (m * long - k * short) + dx - dy)
                by (nonlinear_arith)
                requires
                    a == k,
                    b == m,
                    long == dx,
                    short == dy,
            ;
        } else {
            assert(walk_error(dx, dy, a, b) == -(m * long - k * short) + dx - dy)
                by (nonlinear_arith)
                requires
                    a == m,
                    b == k,
                    long == dy,
                    short == dx,
            ;
        }
    }
}

/// One round of the walk leads from a cell of the line to the next one. A
/// round steps across where twice the error term is at least `-dy`, and
/// down where it is at most `dx`; each step adjusts the error term by the
/// extent of the other axis.
pub proof fn lemma_walk_step(dx: int, dy: int, k: int, a: int, b: int)
    requires
        0 <= dx,
        0 <= dy,
        0 <= k,
        k < dx || k < dy,
        on_line(dx, dy, k, a, b),
    ensures
        ({
            let e2 = 2 * walk_error(dx, dy, a, b);
            let a2 = if e2 >= -dy { a + 1 } else { a };
            let b2 = if e2 <= dx { b + 1 } else { b };
            &&& on_line(dx, dy, k + 1, a2, b2)
            &&& walk_error(dx, dy, a2, b2) == walk_error(dx, dy, a, b) + (if e2 <= dx {
                dx
            } else {
                0
            }) - (if e2 >= -dy { dy } else { 0 })
        }),
{
    let e2 = 2 * walk_error(dx, dy, a, b);
    let a2 = if e2 >= -dy { a + 1 } else { a };
    let b2 = if e2 <= dx { b + 1 } else { b };
    let ea = a * dy;
    let eb = b * dx;
    assert(walk_error(dx, dy, a, b) == eb + dx - ea - dy) by (nonlinear_arith)
        requires
            ea == a * dy,
            eb == b * dx,
    ;
    assert(walk_error(dx, dy, a + 1, b) == walk_error(dx, dy, a, b) - dy && walk_error(
        dx,
        dy,
        a,
        b + 1,
    ) == walk_error(dx, dy, a, b) + dx && walk_error(dx, dy, a + 1, b + 1) == walk_error(
        dx,
        dy,
        a,
        b,
    ) + dx - dy) by (nonlinear_arith);
    assert((a + 1) * dy == ea + dy && (b + 1) * dx == eb + dx) by (nonlinear_arith)
        requires
            ea == a * dy,
            eb == b * dx,
    ;
    if dx >= dy {
        lemma_round_bracket(k * dy, dx);
        assert(2 * dx * b == 2 * eb && 2 * dx * (b + 1) == 2 * eb + 2 * dx && 2 * dx * (b + 2)
            == 2 * eb + 4 * dx) by (nonlinear_arith)
            requires
                eb == b * dx,
        ;
        assert(a2 == a + 1);
        lemma_round_unique((k + 1) * dy, dx, b2);
    } else {
        lemma_round_bracket(k * dx, dy);
        assert(2 * dy * a == 2 * ea && 2 * dy * (a + 1) == 2 * ea + 2 * dy && 2 * dy * (a + 2)
            == 2 * ea + 4 * dy) by (nonlinear_arith)
            requires
                ea == a * dy,
        ;
        assert(b2 == b + 1);
        lemma_round_unique((k + 1) * dx, dy, a2);
    }
}

/// At the start the line has not drifted, at its end it has drifted all the
/// way, and one step changes the drift by nothing or by one.
pub proof fn lemma_drift(k: int, short: int, long: int)
    requires
        0 <= short <= long,
        0 <= k < long,
    ensures
        drift(0, short, long) == 0,
        drift(long, short, long) == short,
        drift(k, short, long) <= drift(k + 1, short, long) <= drift(k, short, long) + 1,
{
    let a = drift(k, short, long);
    let b = drift(k + 1, short, long);
    assert(0 * short == 0);
    lemma_round_unique(0, long, 0);
    assert(2 * long * short == 2 * (long * short) && 2 * long * (short + 1) == 2 * (long
        * short) + 2 * long) by (nonlinear_arith);
    lemma_round_unique(long * short, long, short);
    assert(k * short <= (k + 1) * short && (k + 1) * short == k * short + short)
        by (nonlinear_arith)
        requires
            short >= 0,
    ;
    lemma_round_monotonic(k * short, (k + 1) * short, long);
    lemma_round_bracket(k * short, long);
    lemma_round_bracket((k + 1) * short, long);
    assert(b <= a + 1) by (nonlinear_arith)
        requires
            long > 0,
            short <= long,
            2 * long * b <= 2 * (k * short + short) + long,
            2 * (k * short) + long < 2 * long * (a + 1),
    ;
}

/// The line begins at its first end point and ends at its second.
pub proof fn lemma_line_ends(x0: int, y0: int, x1: int, y1: int)
    ensures
        line_cells(x0, y0, x1, y1).len() == line_len(x0, y0, x1, y1),
        line_cells(x0, y0, x1, y1).len() >= 1,
        line_cells(x0, y0, x1, y1).first() == (x0, y0),
        line_cells(x0, y0, x1, y1).last() == (x1, y1),
{
    let dx = distance(x0, x1);
    let dy = distance(y0, y1);
    let n = line_len(x0, y0, x1, y1) - 1;
    if n > 0 {
        if dx >= dy {
            lemma_drift(0, dy, dx);
        } else {
            lemma_drift(0, dx, dy);
        }
    }
}

/// Each cell of the line touches the next: the line moves by one cell at a
/// time along each axis, leaves no cell out and stays on none.
pub proof fn lemma_line_connected(x0: int, y0: int, x1: int, y1: int, k: int)
    requires
        0 <= k,
        k + 1 < line_len(x0, y0, x1, y1),
    ensures
        adjacent(line_cells(x0, y0, x1, y1)[k], line_cells(x0, y0, x1, y1)[k + 1]),
{
    let dx = distance(x0, x1);
    let dy = distance(y0, y1);
    if dx >= dy {
        lemma_drift(k, dy, dx);
    } else {
        lemma_drift(k, dx, dy);
    }
}

/// No cell is on the line twice.
pub proof fn lemma_line_distinct(x0: int, y0: int, x1: int, y1: int, i: int, j: int)
    requires
        0 <= i < j < line_len(x0, y0, x1, y1),
    ensures
        line_cells(x0, y0, x1, y1)[i] != line_cells(x0, y0, x1, y1)[j],
{
}

/// The cells of a line form a path from its first end point to its second:
/// each cell touches the next, and no cell comes twice.
pub proof fn lemma_line_is_a_path(x0: int, y0: int, x1: int, y1: int)
    ensures
        line_cells(x0, y0, x1, y1).len() >= 1,
        line_cells(x0, y0, x1, y1).first() == (x0, y0),
        line_cells(x0, y0, x1, y1).last() == (x1, y1),
        forall|k: int|
            0 <= k && k + 1 < line_cells(x0, y0, x1, y1).len() ==> adjacent(
                #[trigger] line_cells(x0, y0, x1, y1)[k],
                line_cells(x0, y0, x1, y1)[k + 1],
            ),
        forall|i: int, j: int|
            0 <= i < j < line_cells(x0, y0, x1, y1).len() ==> #[trigger] line_cells(
                x0,
                y0,
                x1,
                y1,
            )[i] != #[trigger] line_cells(x0, y0, x1, y1)[j],
{
    let cells = line_cells(x0, y0, x1, y1);
    lemma_line_ends(x0, y0, x1, y1);
    assert forall|k: int| 0 <= k && k + 1 < cells.len() implies adjacent(
        #[trigger] cells[k],
        cells[k + 1],
    ) by {
        lemma_line_connected(x0, y0, x1, y1, k);
    }
    assert forall|i: int, j: int| 0 <= i < j < cells.len() implies #[trigger] cells[i]
        != #[trigger] cells[j] by {
        lemma_line_distinct(x0, y0, x1, y1, i, j);
    }
}

} // verus!
