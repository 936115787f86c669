//! How the coefficients of a channel follow a factor of its samples, in an arithmetic that rounds.
use crate::arithmetic::Model;
use crate::cosine::cosines;
use crate::exact::half;
use crate::fidelity::size;
use crate::forward::{
    channel_ac, channel_scale, coefficient, column, column_sums, dot, magnitude, other_coefficients,
};
use crate::geometry::{lemma_triangle_bounds, lemma_triangle_first, triangle, MAX_SIDE};
use crate::rounded::{
    is_bounded, is_rounded, lemma_half, lemma_integer, lemma_kept_integer, lemma_times, lemma_unit,
    limit, micro, unit, Meaning,
};
use crate::rounded_cosine::cosines_are_bounded;
use crate::rounded_forward::{
    is_distinct, lemma_large_column, lemma_rounded_channel, lemma_rounded_dot,
};
use vstd::prelude::*;

verus! {

/// Whether rounding `c` times a number gives `c` times the rounded number.
pub open spec fn scaling_rule<N>(k: Meaning<N>, c: real, a: real) -> bool {
    k.rounding(c * a) == c * k.rounding(a)
}

/// Whether a factor `c` has no influence on what is lost when the sum of two numbers is rounded.
pub open spec fn sum_rule<N>(k: Meaning<N>, c: real, a: N, b: N) -> bool {
    k.finite(a) && k.finite(b) && size(k.value(a) + k.value(b)) <= limit() && size(
        c * (k.value(a) + k.value(b)),
    ) <= limit() ==> scaling_rule(k, c, k.value(a) + k.value(b))
}

/// Whether a factor `c` has no influence on what is lost when numbers of magnitude `least` at least
/// are rounded, nor when sums of two numbers are. For a factor of two, floating point loses the
/// same of all numbers but those below its smallest normal number, and nothing of sums that lie
/// there.
pub open spec fn scales<N>(k: Meaning<N>, c: real, least: real) -> bool {
    &&& forall|a: real|
        least <= size(a) <= limit() && size(c * a) <= limit() ==> #[trigger] scaling_rule(k, c, a)
    &&& forall|a: N, b: N| #[trigger] sum_rule(k, c, a, b)
}

/// Whether a number is zero or of magnitude `least` at least.
pub open spec fn is_clear(least: real, x: real) -> bool {
    x == 0real || least <= size(x)
}

/// Whether the products of the first `n` numbers of `a` and `b` are zero or not too small.
pub open spec fn are_clear<N>(
    k: Meaning<N>,
    least: real,
    a: Seq<N>,
    b: Seq<N>,
    n: int,
) -> bool {
    forall|i: int| 0 <= i < n ==> is_clear(least, k.value(#[trigger] a[i]) * k.value(b[i]))
}

/// Whether the products that the coefficient of the frequencies `(cx, cy)` is computed from are
/// zero or not too small.
pub open spec fn is_clear_coefficient<N>(
    m: Model<N>,
    k: Meaning<N>,
    least: real,
    samples: Seq<N>,
    w: int,
    h: int,
    cx: int,
    cy: int,
) -> bool {
    let sums = column_sums(m, samples, w, h, cy);
    &&& forall|x: int|
        0 <= x < w ==> are_clear(
            k,
            least,
            #[trigger] column(samples, w, h, x),
            cosines(m, h, cy),
            h,
        )
    &&& are_clear(k, least, sums, cosines(m, w, cx), w)
    &&& is_clear(
        least,
        k.value(dot(m, sums, cosines(m, w, cx), w)) * k.value(m.ratio(1, w * h)),
    )
}

/// Whether the products that the coefficients of a channel are computed from are zero or not too
/// small.
pub open spec fn is_clear_channel<N>(
    m: Model<N>,
    k: Meaning<N>,
    least: real,
    samples: Seq<N>,
    w: int,
    h: int,
    nx: int,
    ny: int,
) -> bool {
    forall|cx: int, cy: int|
        0 <= cx < nx && 0 <= cy < ny ==> #[trigger] is_clear_coefficient(
            m,
            k,
            least,
            samples,
            w,
            h,
            cx,
            cy,
        )
}

/// Whether `b` stands for `c` times what `a` stands for.
pub open spec fn is_multiple<N>(k: Meaning<N>, c: real, a: N, b: N) -> bool {
    k.finite(a) && k.finite(b) && k.value(b) == c * k.value(a)
}

/// A factor has no influence on zero.
#[verifier::spinoff_prover]
proof fn lemma_scaled_zero<N>(m: Model<N>, k: Meaning<N>, c: real)
    requires
        is_rounded(m, k),
    ensures
        scaling_rule(k, c, 0real),
{
    lemma_kept_integer(m, k, 0);
    assert(c * 0real == 0real) by (nonlinear_arith);
}

/// A factor of the first numbers of all products is a factor of their computed sum.
#[verifier::spinoff_prover]
proof fn lemma_multiple_dot<N>(
    m: Model<N>,
    k: Meaning<N>,
    c: real,
    a: Seq<N>,
    other: Seq<N>,
    b: Seq<N>,
    n: int,
    x: real,
    least: real,
)
    requires
        is_rounded(m, k),
        scales(k, c, least),
        are_clear(k, least, a, b, n),
        0 <= n <= 100,
        1real <= x <= 220real,
        forall|i: int| 0 <= i < n ==> is_bounded(k, #[trigger] a[i], x),
        forall|i: int| 0 <= i < n ==> is_bounded(k, #[trigger] other[i], x),
        forall|i: int| 0 <= i < n ==> is_multiple(k, c, #[trigger] a[i], other[i]),
        forall|i: int| 0 <= i < n ==> is_bounded(k, #[trigger] b[i], 1003real / 1000real),
    ensures
        is_multiple(k, c, dot(m, a, b, n), dot(m, other, b, n)),
    decreases n,
{
    lemma_rounded_dot(m, k, a, b, n, x);
    lemma_rounded_dot(m, k, other, b, n, x);
    if n > 0 {
        lemma_multiple_dot(m, k, c, a, other, b, n - 1, x, least);
        lemma_rounded_dot(m, k, a, b, n - 1, x);
        lemma_rounded_dot(m, k, other, b, n - 1, x);
        let p = a[n - 1];
        let q = other[n - 1];
        let r = b[n - 1];
        assert(is_multiple(k, c, p, q));
        lemma_times(m, k, p, r, x, 1003real / 1000real);
        lemma_times(m, k, q, r, x, 1003real / 1000real);
        let u = k.value(p);
        let v = k.value(r);
        assert(c * u * v == c * (u * v)) by (nonlinear_arith);
        assert(scaling_rule(k, c, u * v)) by {
            assert(is_clear(least, u * v));
            lemma_scaled_zero(m, k, c);
        }
        let product = m.times(p, r);
        let other_product = m.times(q, r);
        assert(k.rounds(product, u * v));
        assert(k.rounds(other_product, c * (u * v)));
        let before = dot(m, a, b, n - 1);
        let other_before = dot(m, other, b, n - 1);
        let s = k.value(before) + k.value(product);
        let t = k.value(other_before) + k.value(other_product);
        assert(t == c * s) by (nonlinear_arith)
            requires
                s == k.value(before) + k.value(product),
                t == c * k.value(before) + c * k.value(product),
        ;
        lemma_unit();
        let z = x * (1003real / 1000real);
        let l = (n - 1) as real;
        assert(l * x * (100301real / 100000real) <= 100real * x * (100301real / 100000real))
            by (nonlinear_arith)
            requires
                0real <= l <= 99real,
                1real <= x,
        ;
        assert(unit() * z <= z) by (nonlinear_arith)
            requires
                unit() == 1real / 16777216real,
                0real <= z,
        ;
        assert(k.rounds(m.plus(before, product), s));
        assert(k.rounds(m.plus(other_before, other_product), t));
        assert(sum_rule(k, c, before, product));
    } else {
        lemma_integer(m, k, 0);
        assert(c * 0real == 0real) by (nonlinear_arith);
    }
}

/// In rounded arithmetic a factor of all samples, if it has no influence on what is lost, is a
/// factor of every coefficient.
#[verifier::spinoff_prover]
pub proof fn rounded_multiple_coefficient<N>(
    m: Model<N>,
    k: Meaning<N>,
    c: real,
    samples: Seq<N>,
    other: Seq<N>,
    w: int,
    h: int,
    cx: int,
    cy: int,
    least: real,
)
    requires
        is_rounded(m, k),
        scales(k, c, least),
        size(c) <= 2real,
        is_clear_coefficient(m, k, least, samples, w, h, cx, cy),
        1 <= w <= MAX_SIDE,
        1 <= h <= MAX_SIDE,
        samples.len() == w * h,
        other.len() == w * h,
        forall|i: int| 0 <= i < w * h ==> is_bounded(k, #[trigger] samples[i], 1real + micro(80)),
        forall|i: int| 0 <= i < w * h ==> is_multiple(k, c, #[trigger] samples[i], other[i]),
        0 <= cx <= 6,
        0 <= cy <= 6,
    ensures
        is_multiple(
            k,
            c,
            coefficient(m, samples, w, h, cx, cy),
            coefficient(m, other, w, h, cx, cy),
        ),
{
    lemma_unit();
    let sums = column_sums(m, samples, w, h, cy);
    let other_sums = column_sums(m, other, w, h, cy);
    let s = h as real;
    let limited = 2real * (1real + micro(80));
    assert forall|i: int| 0 <= i < w * h implies is_bounded(k, #[trigger] samples[i], limited)
        && is_bounded(k, other[i], limited) by {
        assert(is_multiple(k, c, samples[i], other[i]));
        assert(is_bounded(k, samples[i], 1real + micro(80)));
        let v = k.value(samples[i]);
        assert(size(c * v) <= limited) by (nonlinear_arith)
            requires
                size(c) <= 2real,
                size(v) <= 1real + micro(80),
                limited == 2real * (1real + micro(80)),
        ;
    }
    assert forall|i: int| 0 <= i < w * h implies is_bounded(k, #[trigger] other[i], limited) by {
        assert(is_bounded(k, samples[i], limited));
    }
    let bound = s * 2real * (1004real / 1000real);
    assert(s * 2real * micro(8) + s * 2real * (10031real / 10000real) <= bound)
        by (nonlinear_arith)
        requires
            1real <= s,
            bound == s * 2real * (1004real / 1000real),
            micro(8) == 8real / 1000000real,
    ;
    assert forall|x: int| 0 <= x < w implies is_bounded(k, #[trigger] sums[x], bound) by {
        lemma_large_column(m, k, samples, w, h, cy, x, 2real);
    }
    assert forall|x: int| 0 <= x < w implies is_bounded(k, #[trigger] other_sums[x], bound) by {
        lemma_large_column(m, k, other, w, h, cy, x, 2real);
    }
    assert forall|x: int| 0 <= x < w implies is_multiple(
        k,
        c,
        #[trigger] sums[x],
        other_sums[x],
    ) by {
        let col = column(samples, w, h, x);
        let other_col = column(other, w, h, x);
        let cos = cosines(m, h, cy);
        assert forall|y: int| 0 <= y < h implies is_bounded(k, #[trigger] col[y], limited)
            && is_bounded(k, other_col[y], limited) && is_multiple(
            k,
            c,
            col[y],
            other_col[y],
        ) by {
            assert(0 <= y * w + x < w * h) by (nonlinear_arith)
                requires
                    0 <= x < w,
                    0 <= y < h,
            ;
            assert(is_bounded(k, other[y * w + x], limited));
        }
        assert forall|y: int| 0 <= y < h implies is_bounded(
            k,
            #[trigger] other_col[y],
            limited,
        ) by {
            assert(is_bounded(k, col[y], limited));
        }
        assert forall|y: int| 0 <= y < h implies is_bounded(
            k,
            #[trigger] cos[y],
            1003real / 1000real,
        ) by {
            cosines_are_bounded(m, k, h, cy, y);
        }
        assert(are_clear(k, least, column(samples, w, h, x), cos, h));
        lemma_multiple_dot(m, k, c, col, other_col, cos, h, limited, least);
    }
    let cos = cosines(m, w, cx);
    assert forall|j: int| 0 <= j < w implies is_bounded(
        k,
        #[trigger] cos[j],
        1003real / 1000real,
    ) by {
        cosines_are_bounded(m, k, w, cx, j);
    }
    lemma_multiple_dot(m, k, c, sums, other_sums, cos, w, bound, least);
    lemma_rounded_dot(m, k, sums, cos, w, bound);
    lemma_rounded_dot(m, k, other_sums, cos, w, bound);
    let total = dot(m, sums, cos, w);
    let other_total = dot(m, other_sums, cos, w);
    let share = m.ratio(1, w * h);
    assert(1 <= w * h <= 10000) by (nonlinear_arith)
        requires
            1 <= w <= 100,
            1 <= h <= 100,
    ;
    lemma_integer(m, k, 1);
    lemma_integer(m, k, w * h);
    let n = (w * h) as real;
    assert(0real <= 1real / n <= 1real) by (nonlinear_arith)
        requires
            1real <= n,
    ;
    assert(k.rounds(share, 1real / n));
    assert(unit() * size(1real / n) <= unit()) by (nonlinear_arith)
        requires
            size(1real / n) <= 1real,
            unit() == 1real / 16777216real,
    ;
    let v = k.value(total);
    let q = k.value(share);
    let r = w as real;
    assert(r * bound * (100301real / 100000real) <= 30000real) by (nonlinear_arith)
        requires
            1real <= r <= 100real,
            bound == s * 2real * (1004real / 1000real),
            1real <= s <= 100real,
    {
        assert(r * bound <= 100real * bound);
    }
    assert(size(v * q) <= 60000real && size(c * v * q) <= 60000real && c * v * q == c * (v * q))
        by (nonlinear_arith)
        requires
            size(v) <= 30000real,
            size(c * v) <= 30000real,
            size(q) <= 2real,
    ;
    assert(k.rounds(m.times(total, share), v * q));
    assert(k.rounds(m.times(other_total, share), c * (v * q)));
    assert(scaling_rule(k, c, v * q)) by {
        assert(is_clear(least, v * q));
        lemma_scaled_zero(m, k, c);
    }
}

/// What becomes of a coefficient as a part of the scale when all samples are multiplied by `c`: it
/// stays for a positive `c`, and is turned about one half for a negative one, up to one millionth.
pub open spec fn follows<N>(k: Meaning<N>, c: real, part: N, other: N) -> bool {
    &&& k.finite(part)
    &&& k.finite(other)
    &&& c > 0real ==> k.value(other) == k.value(part)
    &&& c < 0real ==> size(k.value(other) - (1real - k.value(part))) <= micro(1)
}

/// The largest magnitude grows with the magnitude of a factor.
#[verifier::spinoff_prover]
proof fn lemma_multiple_magnitude<N>(
    m: Model<N>,
    k: Meaning<N>,
    c: real,
    values: Seq<N>,
    other: Seq<N>,
)
    requires
        is_rounded(m, k),
        values.len() == other.len(),
        forall|i: int| 0 <= i < values.len() ==> is_multiple(k, c, #[trigger] values[i], other[i]),
    ensures
        is_multiple(k, size(c), magnitude(m, values), magnitude(m, other)),
        0real <= k.value(magnitude(m, values)),
        forall|i: int|
            0 <= i < values.len() ==> is_bounded(
                k,
                #[trigger] values[i],
                k.value(magnitude(m, values)),
            ),
    decreases values.len(),
{
    let f = size(c);
    if values.len() > 0 {
        let rest = values.drop_last();
        let other_rest = other.drop_last();
        lemma_multiple_magnitude(m, k, c, rest, other_rest);
        let last = values.last();
        assert(is_multiple(k, c, last, other.last()));
        let v = k.value(last);
        let before = k.value(magnitude(m, rest));
        assert(k.finite(m.abs(last)) && k.finite(m.abs(other.last())));
        assert(size(c * v) == f * size(v) && (size(v) < before ==> f * size(v) <= f * before) && (
        before <= size(v) ==> f * before <= f * size(v)) && (size(v) >= before ==> f * size(v) >= f
            * before)) by (nonlinear_arith)
            requires
                f == size(c),
        ;
        assert forall|i: int| 0 <= i < values.len() implies is_bounded(
            k,
            #[trigger] values[i],
            k.value(magnitude(m, values)),
        ) by {
            if i < rest.len() {
                assert(is_bounded(k, rest[i], before));
            }
        }
    } else {
        lemma_integer(m, k, 0);
        assert(f * 0real == 0real) by (nonlinear_arith);
    }
}

/// A coefficient as a part of the scale, and `c` times the coefficient as a part of the scale that
/// goes with it.
#[verifier::spinoff_prover]
proof fn lemma_multiple_part<N>(
    m: Model<N>,
    k: Meaning<N>,
    c: real,
    value: N,
    other: N,
    scale: N,
    other_scale: N,
    least: real,
)
    requires
        is_rounded(m, k),
        scales(k, c, least),
        least <= 1real / 10real,
        c != 0real,
        size(c) <= 2real,
        is_multiple(k, c, value, other),
        is_multiple(k, size(c), scale, other_scale),
        is_bounded(k, value, k.value(scale)),
        k.value(scale) <= 2real,
        is_distinct(k, scale),
        is_distinct(k, other_scale),
    ensures
        ({
            let one_half = m.ratio(1, 2);
            let part = m.plus(one_half, m.times(m.over(one_half, scale), value));
            let other_part = m.plus(one_half, m.times(m.over(one_half, other_scale), other));
            follows(k, c, part, other_part)
        }),
{
    lemma_unit();
    let one_half = m.ratio(1, 2);
    lemma_half(m, k);
    let o = k.value(one_half);
    let s = k.value(scale);
    let g = size(c);
    let v = k.value(value);
    let l = limit();
    assert(0real < s && 0real <= o / s <= l && 0real < g * s && 0real <= o / (g * s) <= l && o / (g
        * s) == (o / s) / g && g * (o / (g * s)) == o / s) by (nonlinear_arith)
        requires
            half() <= s * l,
            half() <= g * s * l,
            half() == 1real / 2real,
            0real < g,
            0real < l,
            o == half(),
    {
        assert(0real < s);
        assert(0real < g * s);
    }
    let factor = m.over(one_half, scale);
    let other_factor = m.over(one_half, other_scale);
    assert(k.rounds(factor, o / s));
    assert(k.rounds(other_factor, o / (g * s)));
    let a = k.value(factor);
    let b = k.value(other_factor);
    assert(a == g * b) by {
        let y = o / (g * s);
        assert(1real / 10real <= y && size(c * y) == o / s) by (nonlinear_arith)
            requires
                y == o / (g * s),
                g * y == o / s,
                g == size(c),
                g <= 2real,
                0real < s <= 2real,
                0real < g * s,
                49real / 100real <= o,
        {
            assert(y * (g * s) == o);
            assert(g * s <= 4real);
            assert(0real <= y);
        }
        assert(scaling_rule(k, c, y));
        if c < 0real {
            assert(k.mirror_rule(c * y));
            assert(-(c * y) == g * y && -(c * b) == g * b) by (nonlinear_arith)
                requires
                    g == -c,
            ;
        }
    }
    assert(size(a * v) <= 6real / 10real) by (nonlinear_arith)
        requires
            size(a - o / s) <= unit() * size(o / s) + unit() * unit(),
            size(v) <= s,
            0real < s <= 2real,
            0real <= o <= 51real / 100real,
            unit() == 1real / 16777216real,
            unit() * unit() == 1real / 281474976710656real,
    {
        assert(o / s * s == o);
        assert(size(a) * s <= o + unit() * o + unit() * unit() * s);
        assert(size(a * v) <= size(a) * s);
    }
    let w = c * v;
    let product = m.times(factor, value);
    let other_product = m.times(other_factor, other);
    assert(b * w == if c > 0real {
        a * v
    } else {
        -(a * v)
    }) by (nonlinear_arith)
        requires
            a == g * b,
            g == size(c),
            w == c * v,
    ;
    assert(k.rounds(product, a * v));
    assert(k.rounds(other_product, b * w));
    assert(unit() * size(a * v) <= unit()) by (nonlinear_arith)
        requires
            size(a * v) <= 1real,
            unit() == 1real / 16777216real,
    ;
    assert(k.mirror_rule(a * v));
    let t = k.value(product);
    let x = o + t;
    let y = o + k.value(other_product);
    assert(k.rounds(m.plus(one_half, product), x));
    assert(k.rounds(m.plus(one_half, other_product), y));
    assert(unit() * size(x) <= 2real * unit() && unit() * size(y) <= 2real * unit())
        by (nonlinear_arith)
        requires
            size(x) <= 2real,
            size(y) <= 2real,
            unit() == 1real / 16777216real,
    ;
}

/// In rounded arithmetic a factor of all samples, if it has no influence on what is lost, is a
/// factor of the average, and its magnitude is a factor of the scale. Unless the scale is
/// vanishingly small, a positive factor keeps the coefficients as parts of the scale, and a
/// negative one turns each of them about one half, up to one millionth.
#[verifier::spinoff_prover]
pub proof fn rounded_multiple_channel<N>(
    m: Model<N>,
    k: Meaning<N>,
    c: real,
    samples: Seq<N>,
    other: Seq<N>,
    w: int,
    h: int,
    nx: int,
    ny: int,
    least: real,
)
    requires
        is_rounded(m, k),
        scales(k, c, least),
        least <= 1real / 10real,
        c != 0real,
        size(c) <= 2real,
        is_clear_channel(m, k, least, samples, w, h, nx, ny),
        1 <= w <= MAX_SIDE,
        1 <= h <= MAX_SIDE,
        samples.len() == w * h,
        other.len() == w * h,
        forall|i: int| 0 <= i < w * h ==> is_bounded(k, #[trigger] samples[i], 1real + micro(80)),
        forall|i: int| 0 <= i < w * h ==> is_multiple(k, c, #[trigger] samples[i], other[i]),
        1 <= nx <= 7,
        1 <= ny <= 7,
    ensures
        ({
            let scale = channel_scale(m, samples, w, h, nx, ny);
            let other_scale = channel_scale(m, other, w, h, nx, ny);
            let ac = channel_ac(m, samples, w, h, nx, ny);
            let other_ac = channel_ac(m, other, w, h, nx, ny);
            &&& is_multiple(
                k,
                c,
                coefficient(m, samples, w, h, 0, 0),
                coefficient(m, other, w, h, 0, 0),
            )
            &&& is_multiple(k, size(c), scale, other_scale)
            &&& other_ac.len() == ac.len()
            &&& is_distinct(k, scale) && is_distinct(k, other_scale) ==> forall|j: int|
                0 <= j < ac.len() ==> follows(k, c, #[trigger] ac[j], other_ac[j])
        }),
{
    let all = triangle(nx, ny);
    let values = other_coefficients(m, samples, w, h, nx, ny);
    let other_values = other_coefficients(m, other, w, h, nx, ny);
    lemma_triangle_first(nx, ny);
    lemma_triangle_bounds(nx, ny);
    assert(is_clear_coefficient(m, k, least, samples, w, h, 0, 0));
    rounded_multiple_coefficient(m, k, c, samples, other, w, h, 0, 0, least);
    assert forall|j: int| 0 <= j < values.len() implies is_multiple(
        k,
        c,
        #[trigger] values[j],
        other_values[j],
    ) by {
        let (cx, cy) = all[j + 1];
        assert(all.drop_first()[j] == all[j + 1]);
        assert(is_clear_coefficient(m, k, least, samples, w, h, cx as int, cy as int));
        rounded_multiple_coefficient(m, k, c, samples, other, w, h, cx as int, cy as int, least);
    }
    lemma_multiple_magnitude(m, k, c, values, other_values);
    lemma_rounded_channel(m, k, samples, w, h, nx, ny);
    let scale = channel_scale(m, samples, w, h, nx, ny);
    let other_scale = channel_scale(m, other, w, h, nx, ny);
    let ac = channel_ac(m, samples, w, h, nx, ny);
    let other_ac = channel_ac(m, other, w, h, nx, ny);
    lemma_integer(m, k, 0);
    if is_distinct(k, scale) && is_distinct(k, other_scale) {
        assert(k.value(scale) > 0real && k.value(other_scale) > 0real) by (nonlinear_arith)
            requires
                half() <= k.value(scale) * limit(),
                half() <= k.value(other_scale) * limit(),
                half() == 1real / 2real,
                limit() > 0real,
        ;
        assert forall|j: int| 0 <= j < ac.len() implies follows(
            k,
            c,
            #[trigger] ac[j],
            other_ac[j],
        ) by {
            assert(is_multiple(k, c, values[j], other_values[j]));
            lemma_multiple_part(
                m,
                k,
                c,
                values[j],
                other_values[j],
                scale,
                other_scale,
                least,
            );
        }
    }
}

/// In rounded arithmetic negating all samples negates the average, keeps the scale and, unless the
/// scale is vanishingly small, turns each coefficient as a part of the scale from `ac` into
/// `1 - ac`, up to one millionth.
pub proof fn rounded_negated_channel<N>(
    m: Model<N>,
    k: Meaning<N>,
    samples: Seq<N>,
    other: Seq<N>,
    w: int,
    h: int,
    nx: int,
    ny: int,
)
    requires
        is_rounded(m, k),
        1 <= w <= MAX_SIDE,
        1 <= h <= MAX_SIDE,
        samples.len() == w * h,
        other.len() == w * h,
        forall|i: int| 0 <= i < w * h ==> is_bounded(k, #[trigger] samples[i], 1real + micro(80)),
        forall|i: int| 0 <= i < w * h ==> is_multiple(k, -1real, #[trigger] samples[i], other[i]),
        1 <= nx <= 7,
        1 <= ny <= 7,
    ensures
        ({
            let scale = channel_scale(m, samples, w, h, nx, ny);
            let other_scale = channel_scale(m, other, w, h, nx, ny);
            let ac = channel_ac(m, samples, w, h, nx, ny);
            let other_ac = channel_ac(m, other, w, h, nx, ny);
            &&& k.value(coefficient(m, other, w, h, 0, 0)) == -k.value(
                coefficient(m, samples, w, h, 0, 0),
            )
            &&& k.value(other_scale) == k.value(scale)
            &&& other_ac.len() == ac.len()
            &&& is_distinct(k, scale) ==> forall|j: int|
                0 <= j < ac.len() ==> size(
                    k.value(other_ac[j]) - (1real - k.value(#[trigger] ac[j])),
                ) <= micro(1)
        }),
{
    assert forall|a: real| #[trigger] scaling_rule(k, -1real, a) by {
        assert(k.mirror_rule(a));
        assert(-1real * a == -a);
    }
    assert forall|a: N, b: N| #[trigger] sum_rule(k, -1real, a, b) by {
        assert(scaling_rule(k, -1real, k.value(a) + k.value(b)));
    }
    rounded_multiple_channel(m, k, -1real, samples, other, w, h, nx, ny, 0real);
}

/// In rounded arithmetic, if a factor of two has no influence on what is lost of numbers that are
/// not too small, and no product that the channel is computed from is too small but not zero,
/// doubling all samples doubles the average and the scale and, unless the scale is vanishingly
/// small, keeps the coefficients as parts of the scale, exactly.
pub proof fn rounded_doubled_channel_keeps_parts<N>(
    m: Model<N>,
    k: Meaning<N>,
    samples: Seq<N>,
    other: Seq<N>,
    w: int,
    h: int,
    nx: int,
    ny: int,
    least: real,
)
    requires
        is_rounded(m, k),
        scales(k, 2real, least),
        least <= 1real / 10real,
        is_clear_channel(m, k, least, samples, w, h, nx, ny),
        1 <= w <= MAX_SIDE,
        1 <= h <= MAX_SIDE,
        samples.len() == w * h,
        other.len() == w * h,
        forall|i: int| 0 <= i < w * h ==> is_bounded(k, #[trigger] samples[i], 1real + micro(80)),
        forall|i: int| 0 <= i < w * h ==> is_multiple(k, 2real, #[trigger] samples[i], other[i]),
        1 <= nx <= 7,
        1 <= ny <= 7,
    ensures
        ({
            let scale = channel_scale(m, samples, w, h, nx, ny);
            let other_scale = channel_scale(m, other, w, h, nx, ny);
            let ac = channel_ac(m, samples, w, h, nx, ny);
            let other_ac = channel_ac(m, other, w, h, nx, ny);
            &&& k.value(coefficient(m, other, w, h, 0, 0)) == 2real * k.value(
                coefficient(m, samples, w, h, 0, 0),
            )
            &&& k.value(other_scale) == 2real * k.value(scale)
            &&& other_ac.len() == ac.len()
            &&& is_distinct(k, scale) ==> forall|j: int|
                0 <= j < ac.len() ==> k.value(other_ac[j]) == k.value(#[trigger] ac[j])
        }),
{
    rounded_multiple_channel(m, k, 2real, samples, other, w, h, nx, ny, least);
}

} // verus!
