//! The coefficients of a channel in an arithmetic that rounds.
use crate::arithmetic::Model;
use crate::cosine::{cosine, cosines};
use crate::exact::{half, lemma_sum_eq, lemma_sum_zero, sum};
use crate::fidelity::{lemma_real_product, size};
use crate::forward::{
    channel_ac, channel_scale, coefficient, column, column_sums, dot, magnitude, other_coefficients,
};
use crate::geometry::{lemma_triangle_bounds, lemma_triangle_first, triangle, MAX_SIDE};
use crate::rounded::{
    is_bounded, is_near, is_rounded, lemma_half, lemma_integer, lemma_times, lemma_unit, limit,
    micro, unit, Meaning,
};
use crate::rounded_cosine::cosines_are_bounded;
use vstd::prelude::*;

verus! {

/// The sum of the products of the numbers that the first `n` numbers of `a` and `b` stand for.
pub open spec fn exact_dot<N>(k: Meaning<N>, a: Seq<N>, b: Seq<N>, n: int) -> real {
    sum(|i: int| k.value(a[i]) * k.value(b[i]), n)
}

/// A computed sum of products with cosines is close to the sum of the products, which exceeds the
/// number of its terms times a bound of the other factors by little.
#[verifier::spinoff_prover]
pub proof fn lemma_rounded_dot<N>(
    m: Model<N>,
    k: Meaning<N>,
    a: Seq<N>,
    b: Seq<N>,
    n: int,
    x: real,
)
    requires
        is_rounded(m, k),
        0 <= n <= 100,
        1real <= x <= 220real,
        forall|i: int| 0 <= i < n ==> is_bounded(k, #[trigger] a[i], x),
        forall|i: int| 0 <= i < n ==> is_bounded(k, #[trigger] b[i], 1003real / 1000real),
    ensures
        is_near(k, dot(m, a, b, n), exact_dot(k, a, b, n), n as real * (7real * x / 1000000real)),
        size(exact_dot(k, a, b, n)) <= n as real * (1003real * x / 1000real),
        is_bounded(k, dot(m, a, b, n), n as real * x * (100301real / 100000real)),
    decreases n,
{
    lemma_unit();
    if n > 0 {
        lemma_rounded_dot(m, k, a, b, n - 1, x);
        let before = dot(m, a, b, n - 1);
        let p = a[n - 1];
        let q = b[n - 1];
        let r = (n - 1) as real;
        assert(r == n as real - 1real);
        lemma_times(m, k, p, q, x, 1003real / 1000real);
        let product = m.times(p, q);
        let exact_product = k.value(p) * k.value(q);
        let z = x * (1003real / 1000real);
        let s = k.value(before);
        let exact = s + k.value(product);
        let u = unit() * x;
        assert(u == x / 16777216real) by (nonlinear_arith)
            requires
                u == unit() * x,
                unit() == 1real / 16777216real,
        ;
        assert(unit() * z == 1003real / 1000real * u) by (nonlinear_arith)
            requires
                z == x * (1003real / 1000real),
                u == unit() * x,
        ;
        let e = 7real * x / 1000000real;
        let f = 1003real * x / 1000real;
        assert(r * e <= 99real * e && r * f <= 99real * f) by (nonlinear_arith)
            requires
                0real <= r <= 99real,
                0real <= e,
                0real <= f,
        ;
        assert(size(exact) <= 102real * x);
        let total = m.plus(before, product);
        assert(k.rounds(total, exact));
        assert(unit() * size(exact) <= 102real * u) by (nonlinear_arith)
            requires
                size(exact) <= 102real * x,
                u == unit() * x,
                unit() == 1real / 16777216real,
        ;
        assert(n as real * e == r * e + e && n as real * f == r * f + f) by (nonlinear_arith)
            requires
                r == n as real - 1real,
        ;
        assert(exact_dot(k, a, b, n) == exact_dot(k, a, b, n - 1) + exact_product);
    } else {
        lemma_integer(m, k, 0);
        let e = 7real * x / 1000000real;
        let f = 1003real * x / 1000real;
        assert(0real * e == 0real && 0real * f == 0real) by (nonlinear_arith);
    }
    let r = n as real;
    assert(r * (7real * x / 1000000real) + r * (1003real * x / 1000real) <= r * x * (100301real
        / 100000real)) by (nonlinear_arith)
        requires
            0real <= r,
            0real <= x,
    ;
}

/// The sum of the column `x` of a channel against the computed vertical cosine `cy`.
pub open spec fn exact_column<N>(
    m: Model<N>,
    k: Meaning<N>,
    samples: Seq<N>,
    w: int,
    h: int,
    cy: int,
    x: int,
) -> real {
    sum(|y: int| k.value(samples[y * w + x]) * k.value(cosine(m, h, cy, y)), h)
}

/// The sum of all columns of a channel against the computed cosines `cx` and `cy`.
pub open spec fn exact_total<N>(
    m: Model<N>,
    k: Meaning<N>,
    samples: Seq<N>,
    w: int,
    h: int,
    cx: int,
    cy: int,
) -> real {
    sum(
        |x: int| exact_column(m, k, samples, w, h, cy, x) * k.value(cosine(m, w, cx, x)),
        w,
    )
}

/// Sums of terms that are close to each other are close to each other.
#[verifier::spinoff_prover]
pub proof fn lemma_sum_near(f: spec_fn(int) -> real, g: spec_fn(int) -> real, n: int, t: real)
    requires
        0 <= n,
        forall|i: int| 0 <= i < n ==> size(#[trigger] f(i) - g(i)) <= t,
    ensures
        size(sum(f, n) - sum(g, n)) <= n as real * t,
    decreases n,
{
    if n > 0 {
        lemma_sum_near(f, g, n - 1, t);
        assert(size(f(n - 1) - g(n - 1)) <= t);
        assert((n - 1) as real == n as real - 1real);
        assert((n as real - 1real) * t + t == n as real * t) by (nonlinear_arith);
    } else {
        assert(0real * t == 0real) by (nonlinear_arith);
    }
}

/// The computed sum of a column whose samples exceed `b` by little is close to the sum of the
/// column.
#[verifier::spinoff_prover]
pub proof fn lemma_large_column<N>(
    m: Model<N>,
    k: Meaning<N>,
    samples: Seq<N>,
    w: int,
    h: int,
    cy: int,
    x: int,
    b: real,
)
    requires
        is_rounded(m, k),
        0 <= x < w <= MAX_SIDE,
        1 <= h <= MAX_SIDE,
        samples.len() == w * h,
        forall|i: int|
            0 <= i < samples.len() ==> is_bounded(
                k,
                #[trigger] samples[i],
                b * (1real + micro(80)),
            ),
        1real <= b <= 2real,
        0 <= cy <= 6,
    ensures
        is_near(
            k,
            column_sums(m, samples, w, h, cy)[x],
            exact_column(m, k, samples, w, h, cy, x),
            h as real * b * micro(8),
        ),
        size(exact_column(m, k, samples, w, h, cy, x)) <= h as real * b * (
        10031real / 10000real),
{
    let col = column(samples, w, h, x);
    let cos = cosines(m, h, cy);
    let bound = b * (1real + micro(80));
    assert(1real <= bound <= 3real) by (nonlinear_arith)
        requires
            1real <= b <= 2real,
            bound == b * (1real + micro(80)),
            micro(80) == 80real / 1000000real,
    ;
    assert forall|j: int| 0 <= j < h implies is_bounded(k, #[trigger] col[j], bound) by {
        assert(0 <= j * w + x < w * h) by (nonlinear_arith)
            requires
                0 <= x < w,
                0 <= j < h,
        ;
    }
    assert forall|j: int| 0 <= j < h implies is_bounded(
        k,
        #[trigger] cos[j],
        1003real / 1000real,
    ) by {
        cosines_are_bounded(m, k, h, cy, j);
    }
    lemma_rounded_dot(m, k, col, cos, h, bound);
    lemma_sum_eq(
        |j: int| k.value(col[j]) * k.value(cos[j]),
        |y: int| k.value(samples[y * w + x]) * k.value(cosine(m, h, cy, y)),
        h,
    );
    let s = h as real;
    assert(s * (7real * bound / 1000000real) <= s * b * micro(8) && s * (1003real * bound
        / 1000real) <= s * b * (10031real / 10000real)) by (nonlinear_arith)
        requires
            1real <= s,
            1real <= b,
            bound == b * (1real + micro(80)),
            micro(80) == 80real / 1000000real,
            micro(8) == 8real / 1000000real,
    {
        let t = s * b;
        assert(s * (7real * bound / 1000000real) == t * (7real * (1real + micro(80))
            / 1000000real));
        assert(s * (1003real * bound / 1000real) == t * (1003real * (1real + micro(80))
            / 1000real));
        assert(t >= 0real);
    }
}

/// In rounded arithmetic a coefficient of a channel whose samples exceed `b` by little is close to
/// the average of the products of the samples and the computed cosines, which exceeds `b` by
/// little.
#[verifier::spinoff_prover]
pub proof fn lemma_large_coefficient<N>(
    m: Model<N>,
    k: Meaning<N>,
    samples: Seq<N>,
    w: int,
    h: int,
    cx: int,
    cy: int,
    b: real,
)
    requires
        is_rounded(m, k),
        1 <= w <= MAX_SIDE,
        1 <= h <= MAX_SIDE,
        samples.len() == w * h,
        forall|i: int|
            0 <= i < samples.len() ==> is_bounded(
                k,
                #[trigger] samples[i],
                b * (1real + micro(80)),
            ),
        1real <= b <= 2real,
        0 <= cx <= 6,
        0 <= cy <= 6,
    ensures
        is_near(
            k,
            coefficient(m, samples, w, h, cx, cy),
            exact_total(m, k, samples, w, h, cx, cy) / ((w * h) as real),
            b * micro(20),
        ),
        size(exact_total(m, k, samples, w, h, cx, cy) / ((w * h) as real)) <= b * (
        10062real / 10000real),
{
    lemma_unit();
    let sums = column_sums(m, samples, w, h, cy);
    let cos = cosines(m, w, cx);
    let r = w as real;
    let s = h as real * b;
    let bound = s * (1004real / 1000real);
    assert(1real <= s <= 200real) by (nonlinear_arith)
        requires
            s == h as real * b,
            1real <= h as real <= 100real,
            1real <= b <= 2real,
    ;
    assert forall|x: int| 0 <= x < w implies is_bounded(k, #[trigger] sums[x], bound) by {
        lemma_large_column(m, k, samples, w, h, cy, x, b);
        assert(s * micro(8) + s * (10031real / 10000real) <= s * (1004real / 1000real))
            by (nonlinear_arith)
            requires
                1real <= s,
                micro(8) == 8real / 1000000real,
        ;
    }
    assert forall|j: int| 0 <= j < w implies is_bounded(
        k,
        #[trigger] cos[j],
        1003real / 1000real,
    ) by {
        cosines_are_bounded(m, k, w, cx, j);
    }
    assert(1real <= bound <= 220real);
    lemma_rounded_dot(m, k, sums, cos, w, bound);
    let f = |x: int| k.value(sums[x]) * k.value(cos[x]);
    let g = |x: int|
        exact_column(m, k, samples, w, h, cy, x) * k.value(cosine(m, w, cx, x));
    let t = s * micro(9);
    assert forall|x: int| 0 <= x < w implies size(#[trigger] f(x) - g(x)) <= t by {
        lemma_large_column(m, k, samples, w, h, cy, x, b);
        let a = k.value(sums[x]);
        let b = exact_column(m, k, samples, w, h, cy, x);
        let c = k.value(cosine(m, w, cx, x));
        assert(is_bounded(k, cos[x], 1003real / 1000real));
        assert(size(a * c - b * c) <= s * micro(9)) by (nonlinear_arith)
            requires
                size(a - b) <= s * micro(8),
                size(c) <= 1003real / 1000real,
                1real <= s,
                micro(8) == 8real / 1000000real,
                micro(9) == 9real / 1000000real,
        {
            assert(a * c - b * c == (a - b) * c);
            assert(size((a - b) * c) <= s * micro(8) * (1003real / 1000real));
        }
    }
    lemma_sum_near(f, g, w, t);
    let all = exact_total(m, k, samples, w, h, cx, cy);
    lemma_total_bound(m, k, samples, w, h, cx, cy, b);
    let total = dot(m, sums, cos, w);
    let v = k.value(total);
    lemma_real_product(w, h);
    let n = (w * h) as real;
    assert(1 <= w * h <= 10000) by (nonlinear_arith)
        requires
            1 <= w <= 100,
            1 <= h <= 100,
    ;
    let l = n * b;
    assert(l == r * s && n <= l <= 2real * n) by (nonlinear_arith)
        requires
            l == n * b,
            n == r * h as real,
            s == h as real * b,
            1real <= b <= 2real,
            1real <= n,
    ;
    assert(size(v - all) <= l * micro(17)) by (nonlinear_arith)
        requires
            size(v - all) <= r * (7real * bound / 1000000real) + r * t,
            t == s * micro(9),
            bound == s * (1004real / 1000real),
            l == r * s,
            1real <= r,
            1real <= s,
            micro(9) == 9real / 1000000real,
            micro(17) == 17real / 1000000real,
    {
        assert(r * t == l * micro(9));
        assert(r * (7real * bound / 1000000real) == l * (7real * (1004real / 1000real)
            / 1000000real));
        assert(0real <= l);
    }
    lemma_integer(m, k, 1);
    lemma_integer(m, k, w * h);
    let share = m.ratio(1, w * h);
    assert(0real <= 1real / n <= 1real && size(all / n) <= b * (10062real / 10000real))
        by (nonlinear_arith)
        requires
            1real <= n,
            l == n * b,
            size(all) <= l * (10062real / 10000real),
    {
        assert(size(all / n) * n == size(all));
        assert(l * (10062real / 10000real) == b * (10062real / 10000real) * n);
    }
    assert(k.rounds(share, 1real / n));
    let q = k.value(share);
    assert(size((v - all) * (1real / n)) <= b * micro(17)) by (nonlinear_arith)
        requires
            size(v - all) <= l * micro(17),
            l == n * b,
            1real <= n,
    {
        assert(n * (1real / n) == 1real);
        assert(size((v - all) * (1real / n)) == size(v - all) * (1real / n));
        assert(size(v - all) * (1real / n) <= l * micro(17) * (1real / n));
        assert(l * micro(17) * (1real / n) == b * micro(17) * (n * (1real / n)));
    }
    let d = q - 1real / n;
    assert(size(v * d) <= 5real * unit()) by (nonlinear_arith)
        requires
            size(v - all) <= l * micro(17),
            size(all) <= l * (10062real / 10000real),
            l <= 2real * n,
            size(d) <= unit() * size(1real / n) + unit() * unit(),
            1real <= n <= 10000real,
            unit() == 1real / 16777216real,
            unit() * unit() == 1real / 281474976710656real,
            micro(17) == 17real / 1000000real,
    {
        assert(size(v) <= 4real * n);
        assert(n * (1real / n) == 1real);
        assert(size(d) * n <= unit() + unit() * unit() * n);
        assert(size(v * d) <= 4real * (size(d) * n));
        assert(unit() * unit() * n <= unit() / 1000real);
    }
    assert(v * q - all / n == (v - all) * (1real / n) + v * d) by (nonlinear_arith)
        requires
            d == q - 1real / n,
            1real <= n,
    ;
    assert(b * micro(17) <= micro(34) && b * micro(20) == b * micro(17) + b * micro(3) && b
        * micro(3) >= micro(3)) by (nonlinear_arith)
        requires
            1real <= b <= 2real,
            micro(17) == 17real / 1000000real,
            micro(34) == 34real / 1000000real,
            micro(20) == 20real / 1000000real,
            micro(3) == 3real / 1000000real,
    ;
    let product = m.times(total, share);
    assert(size(v * q) <= 3real);
    assert(k.rounds(product, v * q));
    assert(unit() * size(v * q) <= 3real * unit()) by (nonlinear_arith)
        requires
            size(v * q) <= 3real,
            unit() == 1real / 16777216real,
    ;
}

/// In rounded arithmetic a coefficient of a channel whose samples exceed one by little is close
/// to the average of the products of the samples and the computed cosines, which exceeds one by
/// little.
pub proof fn lemma_near_coefficient<N>(
    m: Model<N>,
    k: Meaning<N>,
    samples: Seq<N>,
    w: int,
    h: int,
    cx: int,
    cy: int,
)
    requires
        is_rounded(m, k),
        1 <= w <= MAX_SIDE,
        1 <= h <= MAX_SIDE,
        samples.len() == w * h,
        forall|i: int|
            0 <= i < samples.len() ==> is_bounded(k, #[trigger] samples[i], 1real + micro(80)),
        0 <= cx <= 6,
        0 <= cy <= 6,
    ensures
        is_near(
            k,
            coefficient(m, samples, w, h, cx, cy),
            exact_total(m, k, samples, w, h, cx, cy) / ((w * h) as real),
            micro(20),
        ),
        size(exact_total(m, k, samples, w, h, cx, cy) / ((w * h) as real)) <= 10062real / 10000real,
{
    lemma_large_coefficient(m, k, samples, w, h, cx, cy, 1real);
}

/// The sum of all columns exceeds the number of samples, times a bound of them, by little.
#[verifier::spinoff_prover]
proof fn lemma_total_bound<N>(
    m: Model<N>,
    k: Meaning<N>,
    samples: Seq<N>,
    w: int,
    h: int,
    cx: int,
    cy: int,
    b: real,
)
    requires
        is_rounded(m, k),
        1 <= w <= MAX_SIDE,
        1 <= h <= MAX_SIDE,
        samples.len() == w * h,
        forall|i: int|
            0 <= i < samples.len() ==> is_bounded(
                k,
                #[trigger] samples[i],
                b * (1real + micro(80)),
            ),
        1real <= b <= 2real,
        0 <= cx <= 6,
        0 <= cy <= 6,
    ensures
        size(exact_total(m, k, samples, w, h, cx, cy)) <= (w * h) as real * b * (
        10062real / 10000real),
{
    let s = h as real * b;
    assert(1real <= s) by (nonlinear_arith)
        requires
            s == h as real * b,
            1real <= h as real,
            1real <= b,
    ;
    let g = |x: int|
        exact_column(m, k, samples, w, h, cy, x) * k.value(cosine(m, w, cx, x));
    let t = s * (10062real / 10000real);
    assert forall|x: int| 0 <= x < w implies size(#[trigger] g(x) - (|x: int| 0real)(x)) <= t by {
        lemma_large_column(m, k, samples, w, h, cy, x, b);
        cosines_are_bounded(m, k, w, cx, x);
        let b = exact_column(m, k, samples, w, h, cy, x);
        let c = k.value(cosine(m, w, cx, x));
        assert(size(b * c) <= s * (10062real / 10000real)) by (nonlinear_arith)
            requires
                size(b) <= s * (10031real / 10000real),
                size(c) <= 1003real / 1000real,
                1real <= s,
        {
            assert(size(b * c) <= s * (10031real / 10000real) * (1003real / 1000real));
        }
    }
    lemma_sum_near(g, |x: int| 0real, w, t);
    lemma_sum_zero(w);
    lemma_real_product(w, h);
    let r = w as real;
    assert(r * (s * (10062real / 10000real)) == r * h as real * b * (10062real / 10000real))
        by (nonlinear_arith)
        requires
            s == h as real * b,
    ;
}

/// In rounded arithmetic no coefficient of a channel whose samples exceed one by little exceeds
/// one by much.
proof fn lemma_rounded_coefficient<N>(
    m: Model<N>,
    k: Meaning<N>,
    samples: Seq<N>,
    w: int,
    h: int,
    cx: int,
    cy: int,
)
    requires
        is_rounded(m, k),
        1 <= w <= MAX_SIDE,
        1 <= h <= MAX_SIDE,
        samples.len() == w * h,
        forall|i: int|
            0 <= i < samples.len() ==> is_bounded(k, #[trigger] samples[i], 1real + micro(80)),
        0 <= cx <= 6,
        0 <= cy <= 6,
    ensures
        is_bounded(k, coefficient(m, samples, w, h, cx, cy), 1007real / 1000real),
{
    lemma_near_coefficient(m, k, samples, w, h, cx, cy);
}

/// The largest magnitude of numbers exceeds no bound of all of them.
pub proof fn lemma_rounded_magnitude<N>(m: Model<N>, k: Meaning<N>, values: Seq<N>, bound: real)
    requires
        is_rounded(m, k),
        0real <= bound,
        forall|i: int| 0 <= i < values.len() ==> is_bounded(k, #[trigger] values[i], bound),
    ensures
        is_bounded(k, magnitude(m, values), bound),
    decreases values.len(),
{
    if values.len() > 0 {
        lemma_rounded_magnitude(m, k, values.drop_last(), bound);
        assert(is_bounded(k, values.last(), bound));
        assert(k.finite(m.abs(values.last())));
    } else {
        lemma_integer(m, k, 0);
    }
}

/// In rounded arithmetic the average and the scale of a channel whose samples exceed one by
/// little exceed one by little.
pub proof fn lemma_rounded_channel<N>(
    m: Model<N>,
    k: Meaning<N>,
    samples: Seq<N>,
    w: int,
    h: int,
    nx: int,
    ny: int,
)
    requires
        is_rounded(m, k),
        1 <= w <= MAX_SIDE,
        1 <= h <= MAX_SIDE,
        samples.len() == w * h,
        forall|i: int|
            0 <= i < samples.len() ==> is_bounded(k, #[trigger] samples[i], 1real + micro(80)),
        1 <= nx <= 7,
        1 <= ny <= 7,
    ensures
        is_bounded(k, coefficient(m, samples, w, h, 0, 0), 1007real / 1000real),
        is_bounded(k, channel_scale(m, samples, w, h, nx, ny), 1007real / 1000real),
        ({
            let values = other_coefficients(m, samples, w, h, nx, ny);
            forall|j: int|
                0 <= j < values.len() ==> is_bounded(k, #[trigger] values[j], 1007real / 1000real)
        }),
{
    lemma_rounded_coefficient(m, k, samples, w, h, 0, 0);
    lemma_triangle_bounds(nx, ny);
    lemma_triangle_first(nx, ny);
    let all = triangle(nx, ny);
    let values = other_coefficients(m, samples, w, h, nx, ny);
    assert forall|j: int| 0 <= j < values.len() implies is_bounded(
        k,
        #[trigger] values[j],
        1007real / 1000real,
    ) by {
        let (cx, cy) = all[j + 1];
        assert(all.drop_first()[j] == all[j + 1]);
        lemma_rounded_coefficient(m, k, samples, w, h, cx as int, cy as int);
    }
    lemma_rounded_magnitude(m, k, values, 1007real / 1000real);
}

/// Whether a scale is large enough for one half to be divided by it.
pub open spec fn is_distinct<N>(k: Meaning<N>, scale: N) -> bool {
    half() <= k.value(scale) * limit()
}

/// A scale by which one half can be divided is positive.
#[verifier::spinoff_prover]
pub proof fn lemma_distinct<N>(k: Meaning<N>, scale: N)
    requires
        is_distinct(k, scale),
    ensures
        0real < k.value(scale),
{
    assert(0real < k.value(scale)) by (nonlinear_arith)
        requires
            half() <= k.value(scale) * limit(),
            half() == 1real / 2real,
            0real < limit(),
    ;
}

/// No number exceeds the largest magnitude.
pub proof fn lemma_members<N>(m: Model<N>, k: Meaning<N>, values: Seq<N>)
    requires
        is_rounded(m, k),
        forall|i: int| 0 <= i < values.len() ==> k.finite(#[trigger] values[i]),
    ensures
        k.finite(magnitude(m, values)),
        0real <= k.value(magnitude(m, values)),
        forall|i: int|
            0 <= i < values.len() ==> is_bounded(
                k,
                #[trigger] values[i],
                k.value(magnitude(m, values)),
            ),
    decreases values.len(),
{
    if values.len() > 0 {
        let rest = values.drop_last();
        lemma_members(m, k, rest);
        let last = values.last();
        assert(k.finite(values[values.len() - 1]));
        assert(k.finite(m.abs(last)));
        assert forall|i: int| 0 <= i < values.len() implies is_bounded(
            k,
            #[trigger] values[i],
            k.value(magnitude(m, values)),
        ) by {
            if i < rest.len() {
                assert(is_bounded(k, rest[i], k.value(magnitude(m, rest))));
            }
        }
    } else {
        lemma_integer(m, k, 0);
    }
}

/// A coefficient as a part of the scale is close to one half and half their quotient.
#[verifier::spinoff_prover]
pub proof fn lemma_part<N>(m: Model<N>, k: Meaning<N>, value: N, scale: N)
    requires
        is_rounded(m, k),
        is_bounded(k, value, k.value(scale)),
        k.finite(scale),
        k.value(scale) <= 3real,
        is_distinct(k, scale),
    ensures
        0real < k.value(scale),
        is_near(
            k,
            m.plus(m.ratio(1, 2), m.times(m.over(m.ratio(1, 2), scale), value)),
            half() + half() * (k.value(value) / k.value(scale)),
            micro(1),
        ),
{
    lemma_unit();
    let u = unit();
    let one_half = m.ratio(1, 2);
    lemma_half(m, k);
    let o = k.value(one_half);
    let s = k.value(scale);
    let v = k.value(value);
    let l = limit();
    assert(0real < s && 0real <= o / s <= l) by (nonlinear_arith)
        requires
            half() <= s * l,
            half() == 1real / 2real,
            0real < l,
            o == half(),
    {
        assert(0real < s);
    }
    let q = v / s;
    let factor = m.over(one_half, scale);
    assert(k.rounds(factor, o / s));
    let a = k.value(factor);
    assert(size(a * v - half() * q) <= 3real * u) by (nonlinear_arith)
        requires
            size(a - o / s) <= u * size(o / s) + u * u,
            size(v) <= s,
            q == v / s,
            0real < s <= 3real,
            half() == 1real / 2real,
            size(o - half()) <= u,
            0real <= o <= 1real,
            u == 1real / 16777216real,
            u * u == 1real / 281474976710656real,
    {
        assert(o / s * s == o);
        assert(q * s == v);
        assert(size(q) <= 1real);
        assert(size(a - o / s) * s <= u * o + u * u * s);
        assert(size((a - o / s) * v) <= u * o + u * u * s);
        assert(o / s * v == o * q);
        assert(size((o - half()) * q) <= u);
        assert(a * v - half() * q == (a - o / s) * v + (o - half()) * q);
    }
    assert(size(q) <= 1real) by (nonlinear_arith)
        requires
            size(v) <= s,
            q == v / s,
            0real < s,
    {
        assert(q * s == v);
    }
    let product = m.times(factor, value);
    assert(size(half() * q) <= half()) by (nonlinear_arith)
        requires
            size(q) <= 1real,
            half() == 1real / 2real,
    ;
    assert(k.rounds(product, a * v));
    assert(u * size(a * v) <= u) by (nonlinear_arith)
        requires
            size(a * v) <= 1real,
            u == 1real / 16777216real,
    ;
    let x = o + k.value(product);
    assert(k.rounds(m.plus(one_half, product), x));
    assert(u * size(x) <= 2real * u) by (nonlinear_arith)
        requires
            size(x) <= 2real,
            u == 1real / 16777216real,
    ;
}

/// Whether a scale is zero, or large enough for one half to be divided by it.
pub open spec fn is_usable<N>(k: Meaning<N>, scale: N) -> bool {
    k.value(scale) == 0real || is_distinct(k, scale)
}

/// In rounded arithmetic the coefficients of a channel as parts of the scale exceed one by little.
#[verifier::spinoff_prover]
pub proof fn lemma_rounded_ac<N>(
    m: Model<N>,
    k: Meaning<N>,
    samples: Seq<N>,
    w: int,
    h: int,
    nx: int,
    ny: int,
)
    requires
        is_rounded(m, k),
        1 <= w <= MAX_SIDE,
        1 <= h <= MAX_SIDE,
        samples.len() == w * h,
        forall|i: int|
            0 <= i < samples.len() ==> is_bounded(k, #[trigger] samples[i], 1real + micro(80)),
        1 <= nx <= 7,
        1 <= ny <= 7,
        is_usable(k, channel_scale(m, samples, w, h, nx, ny)),
    ensures
        ({
            let ac = channel_ac(m, samples, w, h, nx, ny);
            forall|j: int| 0 <= j < ac.len() ==> is_bounded(k, #[trigger] ac[j], 1real + micro(1))
        }),
{
    let values = other_coefficients(m, samples, w, h, nx, ny);
    let scale = channel_scale(m, samples, w, h, nx, ny);
    let ac = channel_ac(m, samples, w, h, nx, ny);
    lemma_rounded_channel(m, k, samples, w, h, nx, ny);
    assert(forall|j: int| 0 <= j < values.len() ==> k.finite(#[trigger] values[j])) by {
        assert forall|j: int| 0 <= j < values.len() implies k.finite(#[trigger] values[j]) by {
            assert(is_bounded(k, values[j], 1007real / 1000real));
        }
    }
    lemma_members(m, k, values);
    lemma_integer(m, k, 0);
    assert forall|j: int| 0 <= j < ac.len() implies is_bounded(
        k,
        #[trigger] ac[j],
        1real + micro(1),
    ) by {
        assert(is_bounded(k, values[j], k.value(scale)));
        if k.value(scale) != 0real {
            lemma_part(m, k, values[j], scale);
            let v = k.value(values[j]);
            let s = k.value(scale);
            assert(size(half() * (v / s)) <= half()) by (nonlinear_arith)
                requires
                    size(v) <= s,
                    0real < s,
                    half() == 1real / 2real,
            {
                assert(v / s * s == v);
                assert(size(v / s) <= 1real);
            }
        }
    }
}

} // verus!
