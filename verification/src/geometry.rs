//! The whole numbers of the format: how many coefficients an image gets, which ones and in
//! which order, and the size of the image that a hash is decoded to.
use vstd::arithmetic::div_mod::*;
use vstd::arithmetic::mul::*;
use vstd::prelude::*;

verus! {

/// The largest width and height that can be encoded.
pub const MAX_SIDE: usize = 100;

/// The longer side of a decoded image.
pub const DECODED_SIDE: usize = 32;

/// The integer closest to `a / b`, halves upwards.
pub open spec fn nearest(a: int, b: int) -> int {
    (2 * a + b) / (2 * b)
}

/// No integer is closer to `a / b` than `nearest(a, b)`, and of two that are equally close it
/// is the larger one.
pub proof fn nearest_is_closest(a: int, b: int)
    requires
        b > 0,
    ensures
        2 * a - b < 2 * (nearest(a, b) * b) <= 2 * a + b,
{
    let r = nearest(a, b);
    lemma_fundamental_div_mod(2 * a + b, 2 * b);
    assert((2 * b) * r == 2 * (r * b)) by (nonlinear_arith);
    lemma_mod_bound(2 * a + b, 2 * b);
}

/// `a / b` rounded to the closest integer, halves upwards.
pub fn round_div(a: usize, b: usize) -> (r: usize)
    requires
        b > 0,
        2 * a + b <= usize::MAX,
        2 * b <= usize::MAX,
    ensures
        r == nearest(a as int, b as int),
{
    (2 * a + b) / (2 * b)
}

/// The number of luminance coefficients along the longer side.
pub open spec fn luma_limit(has_alpha: bool) -> int {
    if has_alpha {
        5
    } else {
        7
    }
}

/// The number of luminance coefficients along a side of length `side`, where the longer side
/// of the image has length `longest`: in proportion, but at least one.
pub open spec fn luma_extent(limit: int, side: int, longest: int) -> int {
    if longest > 0 && nearest(limit * side, longest) > 1 {
        nearest(limit * side, longest)
    } else {
        1
    }
}

/// The larger of two integers.
pub open spec fn max_of(a: int, b: int) -> int {
    if a >= b {
        a
    } else {
        b
    }
}

/// The numbers of luminance coefficients along the width and the height of an image.
pub open spec fn luma_size(w: int, h: int, has_alpha: bool) -> (int, int) {
    (
        luma_extent(luma_limit(has_alpha), w, max_of(w, h)),
        luma_extent(luma_limit(has_alpha), h, max_of(w, h)),
    )
}

/// A side has between one and `limit` luminance coefficients, and the longest side has `limit`.
pub proof fn lemma_luma_extent(limit: int, side: int, longest: int)
    requires
        1 <= limit,
        0 <= side <= longest,
    ensures
        1 <= luma_extent(limit, side, longest) <= limit,
        0 < side == longest ==> luma_extent(limit, side, longest) == limit,
{
    if longest > 0 {
        let r = nearest(limit * side, longest);
        nearest_is_closest(limit * side, longest);
        assert(r <= limit) by (nonlinear_arith)
            requires
                2 * (r * longest) <= 2 * (limit * side) + longest,
                0 <= side <= longest,
                1 <= limit,
                0 < longest,
        ;
        if side == longest {
            assert(r >= limit) by (nonlinear_arith)
                requires
                    2 * (limit * longest) - longest < 2 * (r * longest),
                    0 < longest,
            ;
        }
    }
}

/// Counts the luminance coefficients along the width and the height of an image.
pub fn luma_components(w: usize, h: usize, has_alpha: bool) -> (r: (usize, usize))
    requires
        w <= MAX_SIDE,
        h <= MAX_SIDE,
    ensures
        (r.0 as int, r.1 as int) == luma_size(w as int, h as int, has_alpha),
{
    let limit: usize = if has_alpha {
        5
    } else {
        7
    };
    let longest: usize = if w >= h {
        w
    } else {
        h
    };
    (extent(limit, w, longest), extent(limit, h, longest))
}

fn extent(limit: usize, side: usize, longest: usize) -> (r: usize)
    requires
        limit <= 7,
        side <= longest <= MAX_SIDE,
    ensures
        r == luma_extent(limit as int, side as int, longest as int),
{
    if longest == 0 {
        return 1;
    }
    assert(limit * side <= 700) by (nonlinear_arith)
        requires
            limit <= 7,
            side <= 100,
    ;
    let r = round_div(limit * side, longest);
    if r > 1 {
        r
    } else {
        1
    }
}

/// Whether a channel with `nx` by `ny` components has a coefficient for the frequencies
/// `(cx, cy)`: those below the diagonal do.
pub open spec fn in_triangle(nx: int, ny: int, cx: int, cy: int) -> bool {
    0 <= cx && 0 <= cy < ny && cx * ny < nx * (ny - cy)
}

/// The number of coefficients with the vertical frequency `cy`.
pub open spec fn row_len(nx: int, ny: int, cy: int) -> int {
    (nx * (ny - cy) + ny - 1) / ny
}

/// The frequencies of the coefficients with a vertical frequency below `cy`, row by row.
pub open spec fn rows(nx: int, ny: int, cy: int) -> Seq<(usize, usize)>
    decreases cy,
{
    if cy <= 0 {
        Seq::empty()
    } else {
        rows(nx, ny, cy - 1) + Seq::new(
            row_len(nx, ny, cy - 1) as nat,
            |cx: int| (cx as usize, (cy - 1) as usize),
        )
    }
}

/// The frequencies `(cx, cy)` of all coefficients of a channel with `nx` by `ny` components,
/// in the order in which a hash holds them.
pub open spec fn triangle(nx: int, ny: int) -> Seq<(usize, usize)> {
    rows(nx, ny, ny)
}

/// A row holds the frequencies below the diagonal, and no others.
pub proof fn lemma_row_len(nx: int, ny: int, cx: int, cy: int)
    requires
        0 <= nx,
        0 <= cy < ny,
        0 <= cx,
    ensures
        in_triangle(nx, ny, cx, cy) <==> cx < row_len(nx, ny, cy),
        0 <= row_len(nx, ny, cy) <= nx,
{
    let a = nx * (ny - cy);
    let r = row_len(nx, ny, cy);
    assert(0 <= a <= nx * ny) by (nonlinear_arith)
        requires
            0 <= nx,
            0 <= cy < ny,
            a == nx * (ny - cy),
    ;
    lemma_fundamental_div_mod(a + ny - 1, ny);
    lemma_mod_bound(a + ny - 1, ny);
    assert(a <= ny * r <= a + ny - 1);
    assert(0 <= r <= nx) by (nonlinear_arith)
        requires
            0 <= a <= nx * ny,
            a <= ny * r <= a + ny - 1,
            ny > 0,
    ;
    if cx < r {
        assert(cx * ny < a) by (nonlinear_arith)
            requires
                cx < r,
                ny * r <= a + ny - 1,
                ny > 0,
        ;
    } else {
        assert(cx * ny >= a) by (nonlinear_arith)
            requires
                cx >= r,
                ny * r >= a,
                ny > 0,
        ;
    }
}

/// Every listed pair of frequencies lies below the diagonal.
pub proof fn lemma_rows_bounds(nx: int, ny: int, cy: int, j: int)
    requires
        0 <= nx <= usize::MAX,
        0 <= cy <= ny <= usize::MAX,
        0 <= j < rows(nx, ny, cy).len(),
    ensures
        in_triangle(nx, ny, rows(nx, ny, cy)[j].0 as int, rows(nx, ny, cy)[j].1 as int),
        rows(nx, ny, cy)[j].0 < nx,
        rows(nx, ny, cy)[j].1 < cy,
    decreases cy,
{
    let before = rows(nx, ny, cy - 1);
    if j < before.len() {
        lemma_rows_bounds(nx, ny, cy - 1, j);
    } else {
        lemma_row_len(nx, ny, j - before.len(), cy - 1);
    }
}

/// Every frequency of a coefficient is below the number of components along its side.
pub proof fn lemma_triangle_bounds(nx: int, ny: int)
    requires
        0 <= nx <= usize::MAX,
        0 <= ny <= usize::MAX,
    ensures
        forall|j: int|
            0 <= j < triangle(nx, ny).len() ==> (#[trigger] triangle(nx, ny)[j]).0 < nx
                && triangle(nx, ny)[j].1 < ny,
{
    assert forall|j: int| 0 <= j < triangle(nx, ny).len() implies (#[trigger] triangle(
        nx,
        ny,
    )[j]).0 < nx && triangle(nx, ny)[j].1 < ny by {
        lemma_rows_bounds(nx, ny, ny, j);
    }
}

proof fn lemma_rows_first(nx: int, ny: int, cy: int)
    requires
        1 <= nx,
        1 <= cy <= ny,
    ensures
        rows(nx, ny, cy).len() >= 1,
        rows(nx, ny, cy)[0] == (0usize, 0usize),
    decreases cy,
{
    if cy == 1 {
        lemma_row_len(nx, ny, 0, 0);
        assert(0 * ny < nx * (ny - 0)) by (nonlinear_arith)
            requires
                1 <= nx,
                1 <= ny,
        ;
        assert(rows(nx, ny, 0).len() == 0);
    } else {
        lemma_rows_first(nx, ny, cy - 1);
    }
}

/// The frequencies `(0, 0)` come first.
pub proof fn lemma_triangle_first(nx: int, ny: int)
    requires
        1 <= nx,
        1 <= ny,
    ensures
        triangle(nx, ny).len() >= 1,
        triangle(nx, ny)[0] == (0usize, 0usize),
{
    lemma_rows_first(nx, ny, ny);
}

proof fn lemma_rows_len(nx: int, ny: int, cy: int)
    requires
        0 <= nx,
        0 <= cy <= ny,
    ensures
        rows(nx, ny, cy).len() <= nx * cy,
    decreases cy,
{
    if cy > 0 {
        lemma_rows_len(nx, ny, cy - 1);
        lemma_row_len(nx, ny, 0, cy - 1);
        assert(nx * (cy - 1) + nx == nx * cy) by (nonlinear_arith);
    } else {
        assert(nx * 0 == 0);
    }
}

/// A channel has at most as many coefficients as pairs of frequencies.
pub proof fn lemma_triangle_len(nx: int, ny: int)
    requires
        0 <= nx,
        0 <= ny,
    ensures
        triangle(nx, ny).len() <= nx * ny,
{
    lemma_rows_len(nx, ny, ny);
}

/// A channel with three by three components has six coefficients, and one with five by five
/// has fifteen.
pub proof fn lemma_small_triangles()
    ensures
        triangle(3, 3).len() == 6,
        triangle(5, 5).len() == 15,
{
    reveal_with_fuel(rows, 6);
}

/// Lists the frequencies of the coefficients of a channel in the order of the format.
pub fn positions(nx: usize, ny: usize) -> (out: Vec<(usize, usize)>)
    requires
        nx * ny <= usize::MAX,
    ensures
        out@ == triangle(nx as int, ny as int),
{
    let mut out: Vec<(usize, usize)> = Vec::new();
    let mut cy: usize = 0;
    while cy < ny
        invariant
            cy <= ny,
            nx * ny <= usize::MAX,
            out@ == rows(nx as int, ny as int, cy as int),
        decreases ny - cy,
    {
        let mut cx: usize = 0;
        let ghost before = out@;
        proof {
            lemma_row_len(nx as int, ny as int, 0, cy as int);
            lemma_mul_inequality(0, ny - cy, nx as int);
            lemma_mul_inequality(ny - cy, ny as int, nx as int);
            lemma_mul_is_commutative(nx as int, ny as int);
            lemma_mul_is_commutative(nx as int, ny - cy);
        }
        while cx * ny < nx * (ny - cy)
            invariant
                cx <= row_len(nx as int, ny as int, cy as int) <= nx,
                cx * ny <= nx * ny <= usize::MAX,
                0 <= nx * (ny - cy) <= nx * ny,
                cy < ny,
                out@ == before + Seq::new(cx as nat, |i: int| (i as usize, cy)),
            decreases nx - cx,
        {
            proof {
                lemma_row_len(nx as int, ny as int, cx as int, cy as int);
                lemma_mul_inequality(cx + 1, nx as int, ny as int);
            }
            out.push((cx, cy));
            cx += 1;
            assert(out@ == before + Seq::new(cx as nat, |i: int| (i as usize, cy)));
        }
        proof {
            lemma_row_len(nx as int, ny as int, cx as int, cy as int);
            assert(out@ == rows(nx as int, ny as int, cy + 1));
        }
        cy += 1;
    }
    out
}

/// The size of the image that a hash with `lx` by `ly` recorded luminance components is decoded
/// to.
pub open spec fn decoded_size(lx: int, ly: int) -> (int, int) {
    if lx > ly {
        (DECODED_SIDE as int, nearest(DECODED_SIDE * ly, lx))
    } else {
        (nearest(DECODED_SIDE * lx, ly), DECODED_SIDE as int)
    }
}

/// Neither side of a decoded image is longer than [`DECODED_SIDE`], one of them has that
/// length, and neither is shorter than five unless no component is recorded along it.
pub proof fn lemma_decoded_size(lx: int, ly: int)
    requires
        0 <= lx <= 7,
        0 <= ly <= 7,
        lx > 0 || ly > 0,
    ensures
        0 <= decoded_size(lx, ly).0 <= DECODED_SIDE,
        0 <= decoded_size(lx, ly).1 <= DECODED_SIDE,
        max_of(decoded_size(lx, ly).0, decoded_size(lx, ly).1) == DECODED_SIDE,
        decoded_size(lx, ly).0 >= 5 || (lx == 0 && decoded_size(lx, ly).0 == 0),
        decoded_size(lx, ly).1 >= 5 || (ly == 0 && decoded_size(lx, ly).1 == 0),
{
    if lx > ly {
        lemma_scaled_side(ly, lx);
    } else {
        lemma_scaled_side(lx, ly);
    }
}

proof fn lemma_scaled_side(short: int, long: int)
    requires
        0 <= short <= long <= 7,
        0 < long,
    ensures
        0 <= nearest(32 * short, long) <= 32,
        short > 0 ==> nearest(32 * short, long) >= 5,
        short == 0 ==> nearest(32 * short, long) == 0,
{
    let r = nearest(32 * short, long);
    nearest_is_closest(32 * short, long);
    assert(r <= 32) by (nonlinear_arith)
        requires
            2 * (r * long) <= 2 * (32 * short) + long,
            short <= long,
            0 < long,
    ;
    if short > 0 {
        assert(r >= 5) by (nonlinear_arith)
            requires
                2 * (32 * short) - long < 2 * (r * long),
                0 < short,
                0 < long <= 7,
        ;
    } else {
        assert(r == 0) by (nonlinear_arith)
            requires
                -long < 2 * (r * long) <= long,
                0 < long,
        ;
    }
}

/// Computes the size of a decoded image.
pub fn decoded_sides(lx: usize, ly: usize) -> (r: (usize, usize))
    requires
        lx <= 7,
        ly <= 7,
        lx > 0 || ly > 0,
    ensures
        (r.0 as int, r.1 as int) == decoded_size(lx as int, ly as int),
{
    if lx > ly {
        (DECODED_SIDE, round_div(DECODED_SIDE * ly, lx))
    } else {
        (round_div(DECODED_SIDE * lx, ly), DECODED_SIDE)
    }
}

} // verus!
