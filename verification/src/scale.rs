//! Arithmetic of the mapping from logical cells to surface pixels.
//!
//! Along one axis a surface of `surface` pixels shows `canvas` logical cells.
//! The scale factor is the exact fraction `surface / canvas`; no rounding
//! happens before the one rounding step that places a cell edge.

use vstd::prelude::*;
use vstd::arithmetic::div_mod::{lemma_fundamental_div_mod, lemma_fundamental_div_mod_converse};

verus! {

/// How a logical coordinate outside the canvas is brought onto it.
#[derive(Clone, Copy, Debug, PartialEq, Eq, Structural)]
pub enum AddressingMode {
    /// Coordinates at or below zero address cell zero; coordinates past the
    /// far side stay where they are and fall off the surface.
    Clamp,
    /// Coordinates are reduced modulo the canvas size, so the canvas repeats
    /// in every direction.
    Wrap,
}

/// The fraction `n / d` rounded to the nearest integer, halves going up:
/// the floor of the fraction, plus one exactly when the fractional part is
/// at least one half.
pub open spec fn round_half_up(n: int, d: int) -> int {
    n / d + if 2 * (n % d) >= d { 1int } else { 0int }
}

/// Surface coordinate at which logical cell `k` begins, on an axis that
/// shows `canvas` cells on `surface` pixels. Cell `k` ends where cell `k + 1`
/// begins.
pub open spec fn edge(k: int, surface: int, canvas: int) -> int {
    round_half_up(k * surface, canvas)
}

/// The cell that logical coordinate `k` addresses on an axis of `canvas`
/// cells.
pub open spec fn address(mode: AddressingMode, k: int, canvas: int) -> int {
    match mode {
        AddressingMode::Clamp => if k <= 0 { 0 } else { k },
        AddressingMode::Wrap => k % canvas,
    }
}

/// `v`, or `limit` where `v` is larger.
pub open spec fn clip(v: int, limit: int) -> int {
    if v < limit { v } else { limit }
}

/// Euclidean remainder of `a` by `b`: the one value in `0..|b|` that differs
/// from `a` by a multiple of `b`.
pub fn modv2(a: i32, b: i32) -> (r: i32)
    requires
        b != 0,
    ensures
        r == (a as int) % (b as int),
        0 <= r,
        r < b || r < -b,
{
    let wide_a: i64 = a as i64;
    let wide_b: i64 = b as i64;
    let size: i64 = if wide_b < 0 { -wide_b } else { wide_b };
    if wide_a >= 0 {
        let t: i64 = wide_a % size;
        proof {
            lemma_same_remainder(wide_a as int, size as int, b as int);
        }
        t as i32
    } else {
        let m: i64 = (-wide_a) % size;
        proof {
            lemma_negated_remainder(wide_a as int, size as int);
            lemma_same_remainder(wide_a as int, size as int, b as int);
        }
        if m == 0 { 0 } else { (size - m) as i32 }
    }
}

/// Rounds the fraction `n / d` to the nearest integer, halves going up.
pub fn round(n: u128, d: u128) -> (r: u128)
    requires
        d > 0,
        n / d < u128::MAX,
    ensures
        r == round_half_up(n as int, d as int),
{
    let floor: u128 = n / d;
    let rest: u128 = n % d;
    if rest >= d - rest { floor + 1 } else { floor }
}

/// Computes where logical cell `k` begins on the surface.
pub fn scale(k: u64, surface: usize, canvas: usize) -> (r: u128)
    requires
        canvas > 0,
    ensures
        r == edge(k as int, surface as int, canvas as int),
{
    assert((k as int) * (surface as int) <= 0xffff_ffff_ffff_ffff * 0xffff_ffff_ffff_ffff)
        by (nonlinear_arith)
        requires
            0 <= k <= 0xffff_ffff_ffff_ffff,
            0 <= surface <= 0xffff_ffff_ffff_ffff,
    ;
    let n: u128 = (k as u128) * (surface as u128);
    assert(n as int / canvas as int <= n) by (nonlinear_arith)
        requires
            n >= 0,
            canvas > 0,
    ;
    round(n, canvas as u128)
}

/// Finds the cell that logical coordinate `k` addresses on an axis of
/// `canvas` cells.
pub fn resolve(mode: AddressingMode, k: i32, canvas: usize) -> (r: usize)
    requires
        canvas > 0,
    ensures
        r == address(mode, k as int, canvas as int),
{
    match mode {
        AddressingMode::Clamp => if k <= 0 { 0 } else { k as usize },
        AddressingMode::Wrap => {
            if canvas <= i32::MAX as usize {
                modv2(k, canvas as i32) as usize
            } else if k >= 0 {
                proof {
                    lemma_fundamental_div_mod_converse(k as int, canvas as int, 0, k as int);
                }
                k as usize
            } else {
                let below: usize = (-(k as i64)) as usize;
                proof {
                    lemma_fundamental_div_mod_converse(
                        k as int,
                        canvas as int,
                        -1,
                        canvas as int + k as int,
                    );
                }
                canvas - below
            }
        },
    }
}

/// Finds the surface coordinate at which the cell begins that logical
/// coordinate `k` addresses, or the largest `usize` where it begins beyond.
pub fn locate(mode: AddressingMode, k: i32, surface: usize, canvas: usize) -> (r: usize)
    requires
        canvas > 0,
    ensures
        r == clip(
            edge(address(mode, k as int, canvas as int), surface as int, canvas as int),
            usize::MAX as int,
        ),
{
    let begin: u128 = scale(resolve(mode, k, canvas) as u64, surface, canvas);
    if begin < usize::MAX as u128 { begin as usize } else { usize::MAX }
}

/// Finds the surface pixels `r.0 .. r.1` of the block of `n` cells that
/// begins at the cell which logical coordinate `k` addresses. A block that
/// reaches past the surface ends with it.
pub fn span(mode: AddressingMode, k: i32, n: usize, surface: usize, canvas: usize) -> (r: (
    usize,
    usize,
))
    requires
        canvas > 0,
    ensures
        r.0 == clip(
            edge(address(mode, k as int, canvas as int), surface as int, canvas as int),
            surface as int,
        ),
        r.1 == clip(
            edge(address(mode, k as int, canvas as int) + n, surface as int, canvas as int),
            surface as int,
        ),
        r.0 <= r.1 <= surface,
{
    let first: usize = resolve(mode, k, canvas);
    let begin: u128 = scale(first as u64, surface, canvas);
    let low: usize = if begin < surface as u128 { begin as usize } else { surface };
    proof {
        lemma_edge_monotonic(first as int, first + n, surface as int, canvas as int);
    }
    if first >= canvas || n >= canvas - first {
        proof {
            lemma_edge_periodic(0, surface as int, canvas as int);
            lemma_edge_monotonic(canvas as int, first + n, surface as int, canvas as int);
        }
        (low, surface)
    } else {
        let end: u128 = scale((first + n) as u64, surface, canvas);
        let high: usize = if end < surface as u128 { end as usize } else { surface };
        (low, high)
    }
}

/// Finds the surface coordinates `r.0` and `r.1` between which the block
/// of `n` cells lies that begins at the cell which logical coordinate `k`
/// addresses, whether or not they are on the surface.
pub fn extent(mode: AddressingMode, k: i32, n: u32, surface: usize, canvas: usize) -> (r: (
    u128,
    u128,
))
    requires
        canvas > 0,
    ensures
        r.0 == edge(address(mode, k as int, canvas as int), surface as int, canvas as int),
        r.1 == edge(address(mode, k as int, canvas as int) + n, surface as int, canvas as int),
        r.0 <= r.1,
{
    let first: usize = resolve(mode, k, canvas);
    let begin: u128 = scale(first as u64, surface, canvas);
    let total: u128 = first as u128 + n as u128;
    proof {
        lemma_edge_monotonic(first as int, first + n, surface as int, canvas as int);
    }
    if total <= u64::MAX as u128 {
        (begin, scale(total as u64, surface, canvas))
    } else {
        let beyond: u64 = (total - canvas as u128) as u64;
        proof {
            lemma_edge_periodic(beyond as int, surface as int, canvas as int);
            lemma_edge_monotonic(beyond as int, u32::MAX as int, surface as int, canvas as int);
            lemma_round_bracket(u32::MAX * surface, canvas as int);
            assert(edge(u32::MAX as int, surface as int, canvas as int) <= 0x1_0000_0000
                * 0x1_0000_0000_0000_0000) by (nonlinear_arith)
                requires
                    canvas >= 1,
                    0 <= surface < 0x1_0000_0000_0000_0000,
                    2 * canvas * edge(u32::MAX as int, surface as int, canvas as int) <= 2 * (
                    u32::MAX * surface) + canvas,
            ;
        }
        (begin, scale(beyond, surface, canvas) + surface as u128)
    }
}

/// The rounded value of `n / d` is the one integer `e` with
/// `e - 1/2 <= n / d < e + 1/2`.
pub proof fn lemma_round_bracket(n: int, d: int)
    requires
        d > 0,
    ensures
        2 * d * round_half_up(n, d) <= 2 * n + d,
        2 * n + d < 2 * d * (round_half_up(n, d) + 1),
{
    let q = n / d;
    let r = n % d;
    lemma_fundamental_div_mod(n, d);
    assert(2 * d * q == 2 * (d * q) && 2 * d * (q + 1) == 2 * (d * q) + 2 * d && 2 * d * (q + 2)
        == 2 * (d * q) + 4 * d) by (nonlinear_arith);
}

/// Only one integer lies within one half of `n / d`, halves counted upward.
pub proof fn lemma_round_unique(n: int, d: int, e: int)
    requires
        d > 0,
        2 * d * e <= 2 * n + d,
        2 * n + d < 2 * d * (e + 1),
    ensures
        e == round_half_up(n, d),
{
    let f = round_half_up(n, d);
    lemma_round_bracket(n, d);
    assert(e == f) by (nonlinear_arith)
        requires
            d > 0,
            2 * d * e <= 2 * n + d,
            2 * n + d < 2 * d * (e + 1),
            2 * d * f <= 2 * n + d,
            2 * n + d < 2 * d * (f + 1),
    ;
}

/// Rounding keeps the order of fractions over one denominator.
pub proof fn lemma_round_monotonic(n1: int, n2: int, d: int)
    requires
        d > 0,
        n1 <= n2,
    ensures
        round_half_up(n1, d) <= round_half_up(n2, d),
{
    let e1 = round_half_up(n1, d);
    let e2 = round_half_up(n2, d);
    lemma_round_bracket(n1, d);
    lemma_round_bracket(n2, d);
    assert(e1 <= e2) by (nonlinear_arith)
        requires
            d > 0,
            n1 <= n2,
            2 * d * e1 <= 2 * n1 + d,
            2 * n2 + d < 2 * d * (e2 + 1),
    ;
}

/// Cell edges never move backwards as the cell number grows.
pub proof fn lemma_edge_monotonic(k1: int, k2: int, surface: int, canvas: int)
    requires
        k1 <= k2,
        surface >= 0,
        canvas > 0,
    ensures
        edge(k1, surface, canvas) <= edge(k2, surface, canvas),
{
    assert(k1 * surface <= k2 * surface) by (nonlinear_arith)
        requires
            k1 <= k2,
            surface >= 0,
    ;
    lemma_round_monotonic(k1 * surface, k2 * surface, canvas);
}

/// A whole canvas further on, the edge lies a whole surface further on. In
/// particular cell zero begins at pixel zero and cell `canvas` begins where
/// the surface ends.
pub proof fn lemma_edge_periodic(k: int, surface: int, canvas: int)
    requires
        canvas > 0,
    ensures
        edge(k + canvas, surface, canvas) == edge(k, surface, canvas) + surface,
        edge(0, surface, canvas) == 0,
        edge(canvas, surface, canvas) == surface,
{
    let e = edge(k, surface, canvas);
    lemma_round_bracket(k * surface, canvas);
    assert((k + canvas) * surface == k * surface + canvas * surface && 2 * canvas * (e + surface)
        == 2 * canvas * e + 2 * (canvas * surface) && 2 * canvas * (e + surface + 1) == 2 * canvas
        * (e + 1) + 2 * (canvas * surface)) by (nonlinear_arith);
    lemma_round_unique((k + canvas) * surface, canvas, e + surface);
    assert(0 * surface == 0);
    lemma_round_unique(0, canvas, 0);
    assert(canvas * surface == 0 * surface + canvas * surface && 2 * canvas * surface == 2 * (
        canvas * surface) && 2 * canvas * (surface + 1) == 2 * (canvas * surface) + 2 * canvas)
        by (nonlinear_arith);
    lemma_round_unique(canvas * surface, canvas, surface);
}

/// Where the surface has at least as many pixels as the canvas has cells,
/// every cell is at least one pixel wide.
pub proof fn lemma_edge_advances(k: int, surface: int, canvas: int)
    requires
        canvas > 0,
        surface >= canvas,
    ensures
        edge(k, surface, canvas) < edge(k + 1, surface, canvas),
{
    let e1 = edge(k, surface, canvas);
    let e2 = edge(k + 1, surface, canvas);
    lemma_round_bracket(k * surface, canvas);
    lemma_round_bracket((k + 1) * surface, canvas);
    assert(e1 < e2) by (nonlinear_arith)
        requires
            canvas > 0,
            surface >= canvas,
            2 * canvas * e1 <= 2 * (k * surface) + canvas,
            2 * ((k + 1) * surface) + canvas < 2 * canvas * (e2 + 1),
    ;
}

/// Where every cell is a whole number `factor` of pixels wide, cell `k`
/// begins at pixel `k * factor`.
pub proof fn lemma_edge_integral(k: int, factor: int, canvas: int)
    requires
        canvas > 0,
    ensures
        edge(k, factor * canvas, canvas) == k * factor,
{
    assert(2 * canvas * (k * factor) == 2 * (k * (factor * canvas)) && 2 * canvas * (k * factor
        + 1) == 2 * (k * (factor * canvas)) + 2 * canvas) by (nonlinear_arith);
    lemma_round_unique(k * (factor * canvas), canvas, k * factor);
}

/// The cells leave no gap: every pixel of the surface lies in a cell of the
/// canvas. The cell is returned.
pub proof fn lemma_cells_cover(px: int, surface: int, canvas: int) -> (c: int)
    requires
        canvas > 0,
        0 <= px < surface,
    ensures
        0 <= c < canvas,
        edge(c, surface, canvas) <= px < edge(c + 1, surface, canvas),
{
    lemma_edge_periodic(0, surface, canvas);
    lemma_cell_from(px, surface, canvas, 0)
}

/// The cells do not overlap: no pixel lies in two of them.
pub proof fn lemma_cells_disjoint(px: int, c1: int, c2: int, surface: int, canvas: int)
    requires
        canvas > 0,
        surface >= 0,
        c1 != c2,
        edge(c1, surface, canvas) <= px < edge(c1 + 1, surface, canvas),
    ensures
        !(edge(c2, surface, canvas) <= px < edge(c2 + 1, surface, canvas)),
{
    if c1 < c2 {
        lemma_edge_monotonic(c1 + 1, c2, surface, canvas);
    } else {
        lemma_edge_monotonic(c2 + 1, c1, surface, canvas);
    }
}

proof fn lemma_cell_from(px: int, surface: int, canvas: int, k: int) -> (c: int)
    requires
        0 <= k < canvas,
        edge(k, surface, canvas) <= px < surface,
    ensures
        k <= c < canvas,
        edge(c, surface, canvas) <= px < edge(c + 1, surface, canvas),
    decreases canvas - k,
{
    if px < edge(k + 1, surface, canvas) {
        k
    } else {
        lemma_edge_periodic(0, surface, canvas);
        lemma_cell_from(px, surface, canvas, k + 1)
    }
}

proof fn lemma_same_remainder(a: int, size: int, b: int)
    requires
        size > 0,
        b == size || b == -size,
    ensures
        a % b == a % size,
{
    if b == -size {
        assert(a % (-size) == a % size) by (nonlinear_arith)
            requires
                size > 0,
        ;
    }
}

proof fn lemma_negated_remainder(a: int, size: int)
    requires
        size > 0,
    ensures
        a % size == if (-a) % size == 0 { 0 } else { size - (-a) % size },
{
    let q = (-a) / size;
    let m = (-a) % size;
    lemma_fundamental_div_mod(-a, size);
    if m == 0 {
        assert(a == (-q) * size + 0) by (nonlinear_arith)
            requires
                -a == size * q + m,
                m == 0,
        ;
        lemma_fundamental_div_mod_converse(a, size, -q, 0);
    } else {
        assert(a == (-q - 1) * size + (size - m)) by (nonlinear_arith)
            requires
                -a == size * q + m,
        ;
        lemma_fundamental_div_mod_converse(a, size, -q - 1, size - m);
    }
}

} // verus!
