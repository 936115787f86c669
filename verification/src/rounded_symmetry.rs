//! How the coefficients of a channel follow samples that are doubled or transposed, up to little,
//! in an arithmetic that rounds.
use crate::arithmetic::Model;
use crate::cosine::cosine;
use crate::exact::{half, lemma_sum_eq, lemma_sum_scale, lemma_sum_swap, sum};
use crate::fidelity::size;
use crate::forward::{
    channel_ac, channel_scale, coefficient, magnitude, normalized, other_coefficients,
};
use crate::geometry::{lemma_triangle_bounds, lemma_triangle_first, triangle, MAX_SIDE};
use crate::rounded::{is_bounded, is_near, is_rounded, lemma_integer, micro, Meaning};
use crate::rounded_forward::{
    exact_column, exact_total, is_distinct, lemma_distinct, lemma_large_coefficient, lemma_members,
    lemma_near_coefficient, lemma_part, lemma_rounded_channel, lemma_rounded_magnitude,
};
use crate::rounded_multiples::is_multiple;
use crate::symmetry::{
    are_exchanged, is_transposed, lemma_exchanged_index, sample_at, square_channel_len,
};
use vstd::prelude::*;

verus! {

/// Whether two coefficients as parts of a scale differ by `t` at most in proportion to the scale.
pub open spec fn agree<N>(k: Meaning<N>, t: real, scale: N, part: N, other: N) -> bool {
    &&& k.finite(part)
    &&& k.finite(other)
    &&& k.value(scale) * size(k.value(other) - k.value(part)) <= t
}

/// If a coefficient and the scale are close to `c` times another coefficient and its scale, so
/// are the coefficients as parts of the scales to each other, in proportion to the scale.
#[verifier::spinoff_prover]
proof fn lemma_near_parts<N>(
    m: Model<N>,
    k: Meaning<N>,
    c: real,
    t: real,
    value: N,
    other: N,
    scale: N,
    other_scale: N,
)
    requires
        is_rounded(m, k),
        0real < c,
        is_near(k, other, c * k.value(value), t),
        is_near(k, other_scale, c * k.value(scale), t),
        k.finite(scale),
        is_bounded(k, value, k.value(scale)),
        is_bounded(k, other, k.value(other_scale)),
        k.value(scale) <= 3real,
        k.value(other_scale) <= 3real,
        is_distinct(k, scale),
        is_distinct(k, other_scale),
    ensures
        ({
            let one_half = m.ratio(1, 2);
            let part = m.plus(one_half, m.times(m.over(one_half, scale), value));
            let other_part = m.plus(one_half, m.times(m.over(one_half, other_scale), other));
            agree(k, t + micro(6), other_scale, part, other_part)
        }),
{
    lemma_part(m, k, value, scale);
    lemma_part(m, k, other, other_scale);
    let one_half = m.ratio(1, 2);
    let a = k.value(m.plus(one_half, m.times(m.over(one_half, scale), value)));
    let b = k.value(m.plus(one_half, m.times(m.over(one_half, other_scale), other)));
    let v = k.value(value);
    let w = k.value(other);
    let r = k.value(scale);
    let s = k.value(other_scale);
    let e = micro(1);
    assert(s * size(b - a) <= t + 6real * e) by (nonlinear_arith)
        requires
            size(a - (half() + half() * (v / r))) <= e,
            size(b - (half() + half() * (w / s))) <= e,
            half() == 1real / 2real,
            size(w - c * v) <= t,
            size(s - c * r) <= t,
            size(v) <= r,
            0real < r,
            0real < s <= 3real,
            0real <= e,
    {
        let p = v / r;
        let q = w / s;
        assert(p * r == v);
        assert(q * s == w);
        assert(size(p) <= 1real);
        assert(s * (q - p) == (w - c * v) + p * (c * r - s));
        assert(size(p * (c * r - s)) <= t);
        assert(size(s * (q - p)) <= 2real * t);
        assert(size(b - a) <= size(half() * (q - p)) + 2real * e);
        assert(s * size(half() * (q - p)) == half() * size(s * (q - p)));
        assert(s * (2real * e) <= 6real * e);
        assert(s * size(b - a) <= s * size(half() * (q - p)) + s * (2real * e));
    }
}

/// Whether one of `other` is close to `c` times `value`.
spec fn has_image<N>(k: Meaning<N>, c: real, t: real, value: N, other: Seq<N>) -> bool {
    exists|j: int|
        0 <= j < other.len() && is_near(k, #[trigger] other[j], c * k.value(value), t)
}

/// Whether `other` is close to `c` times one of `values`.
spec fn is_image<N>(k: Meaning<N>, c: real, t: real, values: Seq<N>, other: N) -> bool {
    exists|i: int|
        0 <= i < values.len() && is_near(k, other, c * k.value(#[trigger] values[i]), t)
}

/// The largest magnitude of numbers is close to `c` times that of others if no number exceeds `c`
/// times the largest of the others by much, and the other way around.
#[verifier::spinoff_prover]
proof fn lemma_near_magnitude<N>(
    m: Model<N>,
    k: Meaning<N>,
    c: real,
    t: real,
    values: Seq<N>,
    other: Seq<N>,
)
    requires
        is_rounded(m, k),
        0real < c,
        0real <= t,
        forall|i: int| 0 <= i < values.len() ==> k.finite(#[trigger] values[i]),
        forall|j: int| 0 <= j < other.len() ==> k.finite(#[trigger] other[j]),
        forall|i: int| 0 <= i < values.len() ==> has_image(k, c, t, #[trigger] values[i], other),
        forall|j: int| 0 <= j < other.len() ==> is_image(k, c, t, values, #[trigger] other[j]),
    ensures
        is_near(k, magnitude(m, other), c * k.value(magnitude(m, values)), t),
{
    lemma_members(m, k, values);
    lemma_members(m, k, other);
    let r = k.value(magnitude(m, values));
    let s = k.value(magnitude(m, other));
    let upper = c * r + t;
    assert(0real <= c * r && 0real <= (s + t) / c && c * ((s + t) / c) == s + t)
        by (nonlinear_arith)
        requires
            0real < c,
            0real <= r,
            0real <= s,
            0real <= t,
    ;
    assert forall|j: int| 0 <= j < other.len() implies is_bounded(
        k,
        #[trigger] other[j],
        upper,
    ) by {
        let i = choose|i: int|
            0 <= i < values.len() && is_near(k, other[j], c * k.value(#[trigger] values[i]), t);
        assert(is_image(k, c, t, values, other[j]));
        let v = k.value(values[i]);
        assert(is_bounded(k, values[i], r));
        assert(size(c * v) <= c * r) by (nonlinear_arith)
            requires
                0real < c,
                size(v) <= r,
        ;
    }
    lemma_rounded_magnitude(m, k, other, upper);
    let lower = (s + t) / c;
    assert forall|i: int| 0 <= i < values.len() implies is_bounded(
        k,
        #[trigger] values[i],
        lower,
    ) by {
        let v = k.value(values[i]);
        let j = choose|j: int|
            0 <= j < other.len() && is_near(k, #[trigger] other[j], c * k.value(values[i]), t);
        assert(has_image(k, c, t, values[i], other));
        assert(is_bounded(k, other[j], s));
        assert(k.finite(values[i]));
        assert(size(v) <= lower) by (nonlinear_arith)
            requires
                0real < c,
                size(c * v) <= s + t,
                lower == (s + t) / c,
        {
            assert(size(c * v) == c * size(v));
            assert(c * lower == s + t);
        }
    }
    lemma_rounded_magnitude(m, k, values, lower);
    assert(c * r <= s + t) by (nonlinear_arith)
        requires
            0real < c,
            r <= lower,
            c * lower == s + t,
    ;
}

/// Coefficients that are close to `c` times others, as their scale is to that of the others, are
/// close to them as parts of the scales.
proof fn lemma_near_ac<N>(
    m: Model<N>,
    k: Meaning<N>,
    c: real,
    t: real,
    values: Seq<N>,
    other: Seq<N>,
    i: int,
    j: int,
)
    requires
        is_rounded(m, k),
        0real < c,
        forall|i: int| 0 <= i < values.len() ==> k.finite(#[trigger] values[i]),
        forall|j: int| 0 <= j < other.len() ==> k.finite(#[trigger] other[j]),
        0 <= i < values.len(),
        0 <= j < other.len(),
        is_near(k, other[j], c * k.value(values[i]), t),
        is_near(k, magnitude(m, other), c * k.value(magnitude(m, values)), t),
        k.value(magnitude(m, values)) <= 3real,
        k.value(magnitude(m, other)) <= 3real,
        is_distinct(k, magnitude(m, values)),
        is_distinct(k, magnitude(m, other)),
    ensures
        agree(
            k,
            t + micro(6),
            magnitude(m, other),
            normalized(m, values, magnitude(m, values))[i],
            normalized(m, other, magnitude(m, other))[j],
        ),
{
    let scale = magnitude(m, values);
    let other_scale = magnitude(m, other);
    lemma_members(m, k, values);
    lemma_members(m, k, other);
    lemma_distinct(k, scale);
    lemma_distinct(k, other_scale);
    lemma_integer(m, k, 0);
    assert(is_bounded(k, values[i], k.value(scale)));
    assert(is_bounded(k, other[j], k.value(other_scale)));
    lemma_near_parts(m, k, c, t, values[i], other[j], scale, other_scale);
}

/// The coefficient that a part of a scale stands for.
pub open spec fn restored<N>(k: Meaning<N>, scale: N, part: N) -> real {
    k.value(scale) * (2real * k.value(part) - 1real)
}

/// A coefficient as a part of the scale stands for almost the coefficient.
#[verifier::spinoff_prover]
proof fn lemma_restored<N>(m: Model<N>, k: Meaning<N>, values: Seq<N>, i: int)
    requires
        is_rounded(m, k),
        forall|i: int| 0 <= i < values.len() ==> k.finite(#[trigger] values[i]),
        0 <= i < values.len(),
        k.value(magnitude(m, values)) <= 3real,
        is_distinct(k, magnitude(m, values)),
    ensures
        size(
            restored(
                k,
                magnitude(m, values),
                normalized(m, values, magnitude(m, values))[i],
            ) - k.value(values[i]),
        ) <= micro(6),
{
    let scale = magnitude(m, values);
    lemma_members(m, k, values);
    lemma_distinct(k, scale);
    lemma_integer(m, k, 0);
    assert(is_bounded(k, values[i], k.value(scale)));
    lemma_part(m, k, values[i], scale);
    let s = k.value(scale);
    let v = k.value(values[i]);
    let a = k.value(normalized(m, values, scale)[i]);
    assert(size(s * (2real * a - 1real) - v) <= 6real * micro(1)) by (nonlinear_arith)
        requires
            size(a - (half() + half() * (v / s))) <= micro(1),
            half() == 1real / 2real,
            0real < s <= 3real,
            micro(1) == 1real / 1000000real,
    {
        let p = v / s;
        assert(p * s == v);
        let d = 2real * a - 1real - p;
        assert(size(d) <= 2real * micro(1));
        assert(s * (2real * a - 1real) - v == s * d);
        assert(size(s * d) <= 3real * (2real * micro(1)));
    }
}

/// Exchanging rows and columns exchanges the sums over them.
#[verifier::spinoff_prover]
proof fn lemma_transposed_total<N>(
    m: Model<N>,
    k: Meaning<N>,
    samples: Seq<N>,
    other: Seq<N>,
    w: int,
    h: int,
    cx: int,
    cy: int,
)
    requires
        0 < w,
        0 < h,
        is_transposed(samples, other, w, h),
    ensures
        exact_total(m, k, other, h, w, cy, cx) == exact_total(m, k, samples, w, h, cx, cy),
{
    let u = |x: int| k.value(cosine(m, w, cx, x));
    let v = |y: int| k.value(cosine(m, h, cy, y));
    let g = |x: int, y: int| k.value(samples[y * w + x]) * v(y) * u(x);
    lemma_sum_swap(g, w, h);
    let columns = |x: int| exact_column(m, k, samples, w, h, cy, x) * u(x);
    let columns_g = |x: int| sum(|y: int| g(x, y), h);
    assert forall|x: int| 0 <= x < w implies #[trigger] columns(x) == columns_g(x) by {
        let f = |y: int| k.value(samples[y * w + x]) * k.value(cosine(m, h, cy, y));
        lemma_sum_scale(f, u(x), h);
        lemma_sum_eq(|y: int| f(y) * u(x), |y: int| g(x, y), h);
    }
    lemma_sum_eq(columns, columns_g, w);
    lemma_sum_eq(
        |x: int| exact_column(m, k, samples, w, h, cy, x) * k.value(cosine(m, w, cx, x)),
        columns,
        w,
    );
    let rows = |y: int| exact_column(m, k, other, h, w, cx, y) * v(y);
    let rows_g = |y: int| sum(|x: int| g(x, y), w);
    assert forall|y: int| 0 <= y < h implies #[trigger] rows(y) == rows_g(y) by {
        let f = |x: int| k.value(other[x * h + y]) * k.value(cosine(m, w, cx, x));
        lemma_sum_scale(f, v(y), w);
        let scaled = |x: int| f(x) * v(y);
        let terms = |x: int| g(x, y);
        assert forall|x: int| 0 <= x < w implies #[trigger] scaled(x) == terms(x) by {
            let s = sample_at(samples, w, x, y);
            assert(other[x * h + y] == s);
            let (a, b, c) = (k.value(s), u(x), v(y));
            assert(a * b * c == a * c * b) by (nonlinear_arith);
        }
        lemma_sum_eq(scaled, terms, w);
    }
    lemma_sum_eq(rows, rows_g, h);
    lemma_sum_eq(
        |y: int| exact_column(m, k, other, h, w, cx, y) * k.value(cosine(m, h, cy, y)),
        rows,
        h,
    );
}

/// In rounded arithmetic exchanging rows and columns of the samples exchanges the two frequencies
/// of every coefficient, up to 40 millionths.
#[verifier::spinoff_prover]
pub proof fn rounded_transposed_coefficient<N>(
    m: Model<N>,
    k: Meaning<N>,
    samples: Seq<N>,
    other: Seq<N>,
    w: int,
    h: int,
    cx: int,
    cy: int,
)
    requires
        is_rounded(m, k),
        1 <= w <= MAX_SIDE,
        1 <= h <= MAX_SIDE,
        samples.len() == w * h,
        other.len() == w * h,
        forall|i: int| 0 <= i < w * h ==> is_bounded(k, #[trigger] samples[i], 1real + micro(80)),
        forall|i: int| 0 <= i < w * h ==> is_bounded(k, #[trigger] other[i], 1real + micro(80)),
        is_transposed(samples, other, w, h),
        0 <= cx <= 6,
        0 <= cy <= 6,
    ensures
        k.finite(coefficient(m, samples, w, h, cx, cy)),
        is_near(
            k,
            coefficient(m, other, h, w, cy, cx),
            k.value(coefficient(m, samples, w, h, cx, cy)),
            micro(40),
        ),
{
    assert(h * w == w * h) by (nonlinear_arith);
    lemma_transposed_total(m, k, samples, other, w, h, cx, cy);
    lemma_near_coefficient(m, k, samples, w, h, cx, cy);
    lemma_near_coefficient(m, k, other, h, w, cy, cx);
}

/// Coefficients with exchanged frequencies are close to each other.
proof fn lemma_exchanged_values<N>(
    m: Model<N>,
    k: Meaning<N>,
    samples: Seq<N>,
    other: Seq<N>,
    w: int,
    h: int,
    nx: int,
    ny: int,
    i: int,
    j: int,
)
    requires
        is_rounded(m, k),
        1 <= w <= MAX_SIDE,
        1 <= h <= MAX_SIDE,
        samples.len() == w * h,
        other.len() == w * h,
        forall|i: int| 0 <= i < w * h ==> is_bounded(k, #[trigger] samples[i], 1real + micro(80)),
        forall|i: int| 0 <= i < w * h ==> is_bounded(k, #[trigger] other[i], 1real + micro(80)),
        is_transposed(samples, other, w, h),
        1 <= nx <= 7,
        1 <= ny <= 7,
        are_exchanged(nx, ny, i, j) || are_exchanged(ny, nx, j, i),
    ensures
        ({
            let values = other_coefficients(m, samples, w, h, nx, ny);
            let other_values = other_coefficients(m, other, h, w, ny, nx);
            &&& 0 <= i < values.len()
            &&& 0 <= j < other_values.len()
            &&& k.finite(values[i])
            &&& is_near(k, other_values[j], 1real * k.value(values[i]), micro(40))
            &&& has_image(k, 1real, micro(40), values[i], other_values)
            &&& is_image(k, 1real, micro(40), values, other_values[j])
        }),
{
    lemma_triangle_first(nx, ny);
    lemma_triangle_bounds(nx, ny);
    let list = triangle(nx, ny).drop_first();
    assert(list[i] == triangle(nx, ny)[i + 1]);
    let (cx, cy) = list[i];
    rounded_transposed_coefficient(m, k, samples, other, w, h, cx as int, cy as int);
    let values = other_coefficients(m, samples, w, h, nx, ny);
    let other_values = other_coefficients(m, other, h, w, ny, nx);
    assert(is_near(k, other_values[j], 1real * k.value(values[i]), micro(40)));
}

/// Exchanging rows and columns keeps the scale, up to little.
proof fn lemma_transposed_scale<N>(
    m: Model<N>,
    k: Meaning<N>,
    samples: Seq<N>,
    other: Seq<N>,
    w: int,
    h: int,
    nx: int,
    ny: int,
)
    requires
        is_rounded(m, k),
        1 <= w <= MAX_SIDE,
        1 <= h <= MAX_SIDE,
        samples.len() == w * h,
        other.len() == w * h,
        forall|i: int| 0 <= i < w * h ==> is_bounded(k, #[trigger] samples[i], 1real + micro(80)),
        forall|i: int| 0 <= i < w * h ==> is_bounded(k, #[trigger] other[i], 1real + micro(80)),
        is_transposed(samples, other, w, h),
        1 <= nx <= 7,
        1 <= ny <= 7,
    ensures
        ({
            let values = other_coefficients(m, samples, w, h, nx, ny);
            let other_values = other_coefficients(m, other, h, w, ny, nx);
            &&& forall|i: int| 0 <= i < values.len() ==> k.finite(#[trigger] values[i])
            &&& forall|j: int| 0 <= j < other_values.len() ==> k.finite(#[trigger] other_values[j])
            &&& is_near(
                k,
                magnitude(m, other_values),
                1real * k.value(magnitude(m, values)),
                micro(40),
            )
        }),
{
    let values = other_coefficients(m, samples, w, h, nx, ny);
    let other_values = other_coefficients(m, other, h, w, ny, nx);
    lemma_triangle_first(nx, ny);
    lemma_triangle_first(ny, nx);
    assert forall|i: int| 0 <= i < values.len() implies k.finite(#[trigger] values[i])
        && has_image(k, 1real, micro(40), values[i], other_values) by {
        let j = lemma_exchanged_index(nx, ny, i);
        lemma_exchanged_values(m, k, samples, other, w, h, nx, ny, i, j);
    }
    assert forall|j: int| 0 <= j < other_values.len() implies k.finite(#[trigger] other_values[j])
        && is_image(k, 1real, micro(40), values, other_values[j]) by {
        let i = lemma_exchanged_index(ny, nx, j);
        lemma_exchanged_values(m, k, samples, other, w, h, nx, ny, i, j);
    }
    lemma_near_magnitude(m, k, 1real, micro(40), values, other_values);
}

/// In rounded arithmetic exchanging rows and columns of the samples, and the numbers of components
/// with them, keeps the average and the scale of a channel up to 40 millionths, and exchanges the
/// two frequencies of every other coefficient: unless a scale is vanishingly small, up to 46
/// millionths in proportion to the scale as a part of it, and up to 60 millionths as what the part
/// stands for.
#[verifier::spinoff_prover]
pub proof fn rounded_transposed_channel<N>(
    m: Model<N>,
    k: Meaning<N>,
    samples: Seq<N>,
    other: Seq<N>,
    w: int,
    h: int,
    nx: int,
    ny: int,
)
    requires
        is_rounded(m, k),
        1 <= w <= MAX_SIDE,
        1 <= h <= MAX_SIDE,
        samples.len() == w * h,
        other.len() == w * h,
        forall|i: int| 0 <= i < w * h ==> is_bounded(k, #[trigger] samples[i], 1real + micro(80)),
        forall|i: int| 0 <= i < w * h ==> is_bounded(k, #[trigger] other[i], 1real + micro(80)),
        is_transposed(samples, other, w, h),
        1 <= nx <= 7,
        1 <= ny <= 7,
    ensures
        ({
            let scale = channel_scale(m, samples, w, h, nx, ny);
            let other_scale = channel_scale(m, other, h, w, ny, nx);
            let ac = channel_ac(m, samples, w, h, nx, ny);
            let other_ac = channel_ac(m, other, h, w, ny, nx);
            &&& is_near(
                k,
                coefficient(m, other, h, w, 0, 0),
                k.value(coefficient(m, samples, w, h, 0, 0)),
                micro(40),
            )
            &&& is_near(k, other_scale, k.value(scale), micro(40))
            &&& nx == ny ==> 2 * (ac.len() + 1) == nx * (nx + 1) && other_ac.len() == ac.len()
            &&& is_distinct(k, scale) && is_distinct(k, other_scale) ==> forall|i: int, j: int|
                #![trigger ac[i], other_ac[j]]
                are_exchanged(nx, ny, i, j) ==> {
                    &&& agree(k, micro(46), other_scale, ac[i], other_ac[j])
                    &&& size(restored(k, scale, ac[i]) - restored(k, other_scale, other_ac[j]))
                        <= micro(60)
                }
        }),
{
    assert(h * w == w * h) by (nonlinear_arith);
    let values = other_coefficients(m, samples, w, h, nx, ny);
    let other_values = other_coefficients(m, other, h, w, ny, nx);
    let scale = channel_scale(m, samples, w, h, nx, ny);
    let other_scale = channel_scale(m, other, h, w, ny, nx);
    let ac = channel_ac(m, samples, w, h, nx, ny);
    let other_ac = channel_ac(m, other, h, w, ny, nx);
    if nx == ny {
        square_channel_len(nx);
        lemma_triangle_first(nx, ny);
    }
    rounded_transposed_coefficient(m, k, samples, other, w, h, 0, 0);
    lemma_transposed_scale(m, k, samples, other, w, h, nx, ny);
    lemma_rounded_channel(m, k, samples, w, h, nx, ny);
    lemma_rounded_channel(m, k, other, h, w, ny, nx);
    if is_distinct(k, scale) && is_distinct(k, other_scale) {
        assert forall|i: int, j: int| #![trigger ac[i], other_ac[j]] are_exchanged(
            nx,
            ny,
            i,
            j,
        ) implies agree(k, micro(46), other_scale, ac[i], other_ac[j]) && size(
            restored(k, scale, ac[i]) - restored(k, other_scale, other_ac[j]),
        ) <= micro(60) by {
            lemma_exchanged_values(m, k, samples, other, w, h, nx, ny, i, j);
            lemma_near_ac(m, k, 1real, micro(40), values, other_values, i, j);
            lemma_restored(m, k, values, i);
            lemma_restored(m, k, other_values, j);
        }
    }
}

/// A factor of all samples is a factor of the sum over them.
#[verifier::spinoff_prover]
proof fn lemma_multiple_total<N>(
    m: Model<N>,
    k: Meaning<N>,
    c: real,
    samples: Seq<N>,
    other: Seq<N>,
    w: int,
    h: int,
    cx: int,
    cy: int,
)
    requires
        0 < w,
        0 < h,
        forall|i: int| 0 <= i < w * h ==> is_multiple(k, c, #[trigger] samples[i], other[i]),
    ensures
        exact_total(m, k, other, w, h, cx, cy) == exact_total(m, k, samples, w, h, cx, cy) * c,
{
    let columns = |x: int|
        exact_column(m, k, samples, w, h, cy, x) * k.value(cosine(m, w, cx, x));
    let other_columns = |x: int|
        exact_column(m, k, other, w, h, cy, x) * k.value(cosine(m, w, cx, x));
    assert forall|x: int| 0 <= x < w implies #[trigger] other_columns(x) == columns(x) * c by {
        let f = |y: int| k.value(samples[y * w + x]) * k.value(cosine(m, h, cy, y));
        let g = |y: int| k.value(other[y * w + x]) * k.value(cosine(m, h, cy, y));
        let scaled = |y: int| f(y) * c;
        assert forall|y: int| 0 <= y < h implies #[trigger] g(y) == scaled(y) by {
            assert(0 <= y * w + x < w * h) by (nonlinear_arith)
                requires
                    0 <= x < w,
                    0 <= y < h,
            ;
            assert(is_multiple(k, c, samples[y * w + x], other[y * w + x]));
            let (a, b) = (k.value(samples[y * w + x]), k.value(cosine(m, h, cy, y)));
            assert(c * a * b == a * b * c) by (nonlinear_arith);
        }
        lemma_sum_eq(g, scaled, h);
        lemma_sum_scale(f, c, h);
        let (a, b) = (
            exact_column(m, k, samples, w, h, cy, x),
            k.value(cosine(m, w, cx, x)),
        );
        assert(a * c * b == a * b * c) by (nonlinear_arith);
    }
    lemma_sum_eq(other_columns, |x: int| columns(x) * c, w);
    lemma_sum_scale(columns, c, w);
}

/// In rounded arithmetic doubling all samples doubles every coefficient, up to 80 millionths.
#[verifier::spinoff_prover]
pub proof fn rounded_doubled_coefficient<N>(
    m: Model<N>,
    k: Meaning<N>,
    samples: Seq<N>,
    other: Seq<N>,
    w: int,
    h: int,
    cx: int,
    cy: int,
)
    requires
        is_rounded(m, k),
        1 <= w <= MAX_SIDE,
        1 <= h <= MAX_SIDE,
        samples.len() == w * h,
        other.len() == w * h,
        forall|i: int| 0 <= i < w * h ==> is_bounded(k, #[trigger] samples[i], 1real + micro(80)),
        forall|i: int| 0 <= i < w * h ==> is_multiple(k, 2real, #[trigger] samples[i], other[i]),
        0 <= cx <= 6,
        0 <= cy <= 6,
    ensures
        k.finite(coefficient(m, samples, w, h, cx, cy)),
        is_near(
            k,
            coefficient(m, other, w, h, cx, cy),
            2real * k.value(coefficient(m, samples, w, h, cx, cy)),
            micro(80),
        ),
{
    assert forall|i: int| 0 <= i < w * h implies is_bounded(
        k,
        #[trigger] other[i],
        2real * (1real + micro(80)),
    ) by {
        assert(is_multiple(k, 2real, samples[i], other[i]));
        assert(is_bounded(k, samples[i], 1real + micro(80)));
    }
    lemma_multiple_total(m, k, 2real, samples, other, w, h, cx, cy);
    lemma_near_coefficient(m, k, samples, w, h, cx, cy);
    lemma_large_coefficient(m, k, other, w, h, cx, cy, 2real);
    let total = exact_total(m, k, samples, w, h, cx, cy);
    assert(1 <= w * h) by (nonlinear_arith)
        requires
            1 <= w,
            1 <= h,
    ;
    let n = (w * h) as real;
    assert(total * 2real / n == 2real * (total / n)) by (nonlinear_arith)
        requires
            1real <= n,
    ;
}

/// In rounded arithmetic doubling all samples doubles the average and the scale of a channel up to
/// 80 millionths, and keeps the coefficients as parts of the scale up to 86 millionths in
/// proportion to the scale, unless that is vanishingly small.
pub proof fn rounded_doubled_channel<N>(
    m: Model<N>,
    k: Meaning<N>,
    samples: Seq<N>,
    other: Seq<N>,
    w: int,
    h: int,
    nx: int,
    ny: int,
)
    requires
        is_rounded(m, k),
        1 <= w <= MAX_SIDE,
        1 <= h <= MAX_SIDE,
        samples.len() == w * h,
        other.len() == w * h,
        forall|i: int| 0 <= i < w * h ==> is_bounded(k, #[trigger] samples[i], 1real + micro(80)),
        forall|i: int| 0 <= i < w * h ==> is_multiple(k, 2real, #[trigger] samples[i], other[i]),
        1 <= nx <= 7,
        1 <= ny <= 7,
    ensures
        ({
            let scale = channel_scale(m, samples, w, h, nx, ny);
            let other_scale = channel_scale(m, other, w, h, nx, ny);
            let ac = channel_ac(m, samples, w, h, nx, ny);
            let other_ac = channel_ac(m, other, w, h, nx, ny);
            &&& is_near(
                k,
                coefficient(m, other, w, h, 0, 0),
                2real * k.value(coefficient(m, samples, w, h, 0, 0)),
                micro(80),
            )
            &&& is_near(k, other_scale, 2real * k.value(scale), micro(80))
            &&& other_ac.len() == ac.len()
            &&& is_distinct(k, scale) && is_distinct(k, other_scale) ==> forall|j: int|
                0 <= j < ac.len() ==> agree(
                    k,
                    micro(86),
                    other_scale,
                    #[trigger] ac[j],
                    other_ac[j],
                )
        }),
{
    let values = other_coefficients(m, samples, w, h, nx, ny);
    let other_values = other_coefficients(m, other, w, h, nx, ny);
    let scale = channel_scale(m, samples, w, h, nx, ny);
    let other_scale = channel_scale(m, other, w, h, nx, ny);
    let ac = channel_ac(m, samples, w, h, nx, ny);
    let other_ac = channel_ac(m, other, w, h, nx, ny);
    rounded_doubled_coefficient(m, k, samples, other, w, h, 0, 0);
    lemma_doubled_values(m, k, samples, other, w, h, nx, ny);
    lemma_rounded_channel(m, k, samples, w, h, nx, ny);
    if is_distinct(k, scale) && is_distinct(k, other_scale) {
        assert forall|j: int| 0 <= j < ac.len() implies agree(
            k,
            micro(86),
            other_scale,
            #[trigger] ac[j],
            other_ac[j],
        ) by {
            assert(is_near(k, other_values[j], 2real * k.value(values[j]), micro(80)));
            lemma_near_ac(m, k, 2real, micro(80), values, other_values, j, j);
        }
    }
}

/// Doubling all samples doubles all coefficients and the scale, up to little.
proof fn lemma_doubled_values<N>(
    m: Model<N>,
    k: Meaning<N>,
    samples: Seq<N>,
    other: Seq<N>,
    w: int,
    h: int,
    nx: int,
    ny: int,
)
    requires
        is_rounded(m, k),
        1 <= w <= MAX_SIDE,
        1 <= h <= MAX_SIDE,
        samples.len() == w * h,
        other.len() == w * h,
        forall|i: int| 0 <= i < w * h ==> is_bounded(k, #[trigger] samples[i], 1real + micro(80)),
        forall|i: int| 0 <= i < w * h ==> is_multiple(k, 2real, #[trigger] samples[i], other[i]),
        1 <= nx <= 7,
        1 <= ny <= 7,
    ensures
        ({
            let values = other_coefficients(m, samples, w, h, nx, ny);
            let other_values = other_coefficients(m, other, w, h, nx, ny);
            &&& forall|j: int| 0 <= j < values.len() ==> k.finite(#[trigger] values[j])
            &&& forall|j: int|
                0 <= j < values.len() ==> is_near(
                    k,
                    #[trigger] other_values[j],
                    2real * k.value(values[j]),
                    micro(80),
                )
            &&& is_near(
                k,
                magnitude(m, other_values),
                2real * k.value(magnitude(m, values)),
                micro(80),
            )
        }),
{
    let values = other_coefficients(m, samples, w, h, nx, ny);
    let other_values = other_coefficients(m, other, w, h, nx, ny);
    let list = triangle(nx, ny).drop_first();
    lemma_triangle_first(nx, ny);
    lemma_triangle_bounds(nx, ny);
    assert forall|j: int| 0 <= j < values.len() implies k.finite(#[trigger] values[j]) && is_near(
        k,
        other_values[j],
        2real * k.value(values[j]),
        micro(80),
    ) && has_image(k, 2real, micro(80), values[j], other_values) by {
        assert(list[j] == triangle(nx, ny)[j + 1]);
        let (cx, cy) = list[j];
        rounded_doubled_coefficient(m, k, samples, other, w, h, cx as int, cy as int);
        assert(is_near(k, other_values[j], 2real * k.value(values[j]), micro(80)));
    }
    assert forall|j: int| 0 <= j < other_values.len() implies is_near(
        k,
        #[trigger] other_values[j],
        2real * k.value(values[j]),
        micro(80),
    ) && is_image(k, 2real, micro(80), values, other_values[j]) by {
        assert(k.finite(values[j]));
    }
    lemma_near_magnitude(m, k, 2real, micro(80), values, other_values);
}

} // verus!
