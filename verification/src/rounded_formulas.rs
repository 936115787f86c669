//! How close the codec comes to its formulas in an arithmetic that rounds.
use crate::accuracy::recorded_averages;
use crate::arithmetic::Model;
use crate::color::{has_alpha, plane_a, plane_l, plane_p, plane_q};
use crate::cosine::cosine;
use crate::decoder::{decoded_pixel, size_of_hash};
use crate::encoder::{encoded_alpha, encoded_header, quantized, quantized_ac, thumb_hash, used_luma};
use crate::exact::{half, is_exact};
use crate::fidelity::{every_image_reads_back, lemma_cosine_bound, lemma_real_product, size};
use crate::formulas::{
    coefficient_is_transform, decoded_pixel_is_sum, formula_alpha, formula_header, formula_pixel,
    hash_is_quantized_transforms, lemma_peak, levels, peak, shown_plane_a, shown_plane_l,
    shown_plane_p, shown_plane_q, transform, transforms,
};
use crate::forward::{channel_ac, channel_scale, coefficient, magnitude, other_coefficients};
use crate::geometry::{
    lemma_luma_extent, lemma_triangle_bounds, lemma_triangle_first, luma_limit, max_of, triangle,
    MAX_SIDE,
};
use crate::header::header_of;
use crate::parts::{alpha_of, is_complete};
use crate::rounded::{
    is_bounded, is_near, is_rounded, lemma_integer, lemma_times, lemma_unit, limit, micro,
    themselves, unit, Meaning,
};
use crate::rounded_average::{rounded_averages_read_back, rounded_recorded_averages};
use crate::rounded_coefficient::{lemma_exact_coefficient, rounded_coefficient_is_near, values_of};
use crate::rounded_color::channel_values_are_near;
use crate::rounded_decoder::rounded_decoded_pixel;
use crate::rounded_forward::{
    exact_column, exact_total, is_distinct, lemma_distinct, lemma_members, lemma_part,
    lemma_rounded_channel, lemma_sum_near,
};
use crate::rounded_hash::lemma_rounded_level;
use vstd::prelude::*;

verus! {

/// Coefficients of channels whose samples are close to each other are as close.
#[verifier::spinoff_prover]
proof fn lemma_close_coefficients(
    m: Model<real>,
    a: Seq<real>,
    b: Seq<real>,
    t: real,
    w: int,
    h: int,
    cx: int,
    cy: int,
)
    requires
        is_exact(m),
        1 <= w <= MAX_SIDE,
        1 <= h <= MAX_SIDE,
        a.len() == w * h,
        b.len() == w * h,
        forall|i: int| 0 <= i < w * h ==> size(#[trigger] a[i] - b[i]) <= t,
    ensures
        size(coefficient(m, a, w, h, cx, cy) - coefficient(m, b, w, h, cx, cy)) <= t,
{
    let k = themselves(m);
    lemma_exact_coefficient(m, a, w, h, cx, cy);
    lemma_exact_coefficient(m, b, w, h, cx, cy);
    let f = |x: int| exact_column(m, k, a, w, h, cy, x) * k.value(cosine(m, w, cx, x));
    let g = |x: int| exact_column(m, k, b, w, h, cy, x) * k.value(cosine(m, w, cx, x));
    let s = h as real;
    assert forall|x: int| 0 <= x < w implies size(#[trigger] f(x) - g(x)) <= s * t by {
        let p = |y: int| k.value(a[y * w + x]) * k.value(cosine(m, h, cy, y));
        let q = |y: int| k.value(b[y * w + x]) * k.value(cosine(m, h, cy, y));
        assert forall|y: int| 0 <= y < h implies size(#[trigger] p(y) - q(y)) <= t by {
            assert(0 <= y * w + x < w * h) by (nonlinear_arith)
                requires
                    0 <= x < w,
                    0 <= y < h,
            ;
            lemma_cosine_bound(m, h, cy, y);
            let (u, v, c) = (a[y * w + x], b[y * w + x], cosine(m, h, cy, y));
            assert(size(u - v) <= t);
            assert(size(u * c - v * c) <= t) by (nonlinear_arith)
                requires
                    size(u - v) <= t,
                    size(c) <= 1real,
            {
                assert(u * c - v * c == (u - v) * c);
            }
        }
        lemma_sum_near(p, q, h, t);
        lemma_cosine_bound(m, w, cx, x);
        let (u, v, c) = (
            exact_column(m, k, a, w, h, cy, x),
            exact_column(m, k, b, w, h, cy, x),
            cosine(m, w, cx, x),
        );
        assert(size(u * c - v * c) <= s * t) by (nonlinear_arith)
            requires
                size(u - v) <= s * t,
                size(c) <= 1real,
        {
            assert(u * c - v * c == (u - v) * c);
        }
    }
    lemma_sum_near(f, g, w, s * t);
    lemma_real_product(w, h);
    assert(1 <= w * h) by (nonlinear_arith)
        requires
            1 <= w,
            1 <= h,
    ;
    let n = (w * h) as real;
    let p = exact_total(m, k, a, w, h, cx, cy);
    let q = exact_total(m, k, b, w, h, cx, cy);
    assert(size(p / n - q / n) <= t) by (nonlinear_arith)
        requires
            size(p - q) <= w as real * (s * t),
            n == w as real * s,
            1real <= n,
    {
        assert(p / n - q / n == (p - q) / n);
        assert(w as real * (s * t) == n * t);
    }
}

/// In rounded arithmetic a coefficient of a channel whose samples are, up to 80 millionths, the
/// numbers `shown` of magnitude one at most, is the two-dimensional transform of those up to
/// `71 / 10000`.
#[verifier::spinoff_prover]
pub proof fn rounded_coefficient_is_near_transform<N>(
    m: Model<N>,
    k: Meaning<N>,
    samples: Seq<N>,
    shown: Seq<real>,
    w: int,
    h: int,
    cx: int,
    cy: int,
)
    requires
        is_rounded(m, k),
        1 <= w <= MAX_SIDE,
        1 <= h <= MAX_SIDE,
        samples.len() == w * h,
        shown.len() == w * h,
        forall|i: int| 0 <= i < w * h ==> is_near(k, #[trigger] samples[i], shown[i], micro(80)),
        forall|i: int| 0 <= i < w * h ==> size(#[trigger] shown[i]) <= 1real,
        0 <= cx <= 6,
        0 <= cy <= 6,
    ensures
        is_near(
            k,
            coefficient(m, samples, w, h, cx, cy),
            transform(k.exact, shown, w, h, cx, cy),
            71real / 10000real,
        ),
{
    let values = values_of(k, samples);
    assert forall|i: int| 0 <= i < w * h implies is_bounded(
        k,
        #[trigger] samples[i],
        1real + micro(80),
    ) by {
        assert(is_near(k, samples[i], shown[i], micro(80)));
        assert(size(shown[i]) <= 1real);
    }
    assert forall|i: int| 0 <= i < w * h implies size(#[trigger] values[i] - shown[i])
        <= micro(80) by {
        assert(is_near(k, samples[i], shown[i], micro(80)));
    }
    rounded_coefficient_is_near(m, k, samples, w, h, cx, cy);
    lemma_close_coefficients(k.exact, values, shown, micro(80), w, h, cx, cy);
    coefficient_is_transform(k.exact, shown, w, h, cx, cy);
}

/// The largest magnitude of numbers that are close to others is close to theirs.
proof fn lemma_near_peak<N>(
    m: Model<N>,
    k: Meaning<N>,
    values: Seq<N>,
    exact: Seq<real>,
    t: real,
)
    requires
        is_rounded(m, k),
        values.len() == exact.len(),
        0real <= t,
        forall|i: int| 0 <= i < values.len() ==> is_near(k, #[trigger] values[i], exact[i], t),
    ensures
        is_near(k, magnitude(m, values), peak(exact), t),
        0real <= peak(exact),
    decreases values.len(),
{
    if values.len() > 0 {
        lemma_near_peak(m, k, values.drop_last(), exact.drop_last(), t);
        assert(is_near(k, values[values.len() - 1], exact[values.len() - 1], t));
        assert(k.finite(m.abs(values.last())));
    } else {
        lemma_integer(m, k, 0);
    }
}

/// In rounded arithmetic the scale of a channel is close to the largest transform.
proof fn lemma_near_scale<N>(
    m: Model<N>,
    k: Meaning<N>,
    samples: Seq<N>,
    shown: Seq<real>,
    w: int,
    h: int,
    nx: int,
    ny: int,
)
    requires
        is_rounded(m, k),
        1 <= w <= MAX_SIDE,
        1 <= h <= MAX_SIDE,
        samples.len() == w * h,
        shown.len() == w * h,
        forall|i: int| 0 <= i < w * h ==> is_near(k, #[trigger] samples[i], shown[i], micro(80)),
        forall|i: int| 0 <= i < w * h ==> size(#[trigger] shown[i]) <= 1real,
        1 <= nx <= 7,
        1 <= ny <= 7,
    ensures
        is_near(
            k,
            channel_scale(m, samples, w, h, nx, ny),
            peak(transforms(k.exact, shown, w, h, nx, ny)),
            71real / 10000real,
        ),
        0real <= peak(transforms(k.exact, shown, w, h, nx, ny)),
        is_bounded(k, channel_scale(m, samples, w, h, nx, ny), 1007real / 1000real),
{
    let values = other_coefficients(m, samples, w, h, nx, ny);
    let exact = transforms(k.exact, shown, w, h, nx, ny);
    let list = triangle(nx, ny).drop_first();
    lemma_triangle_bounds(nx, ny);
    lemma_triangle_first(nx, ny);
    assert forall|j: int| 0 <= j < values.len() implies is_near(
        k,
        #[trigger] values[j],
        exact[j],
        71real / 10000real,
    ) by {
        assert(list[j] == triangle(nx, ny)[j + 1]);
        let (cx, cy) = list[j];
        rounded_coefficient_is_near_transform(
            m,
            k,
            samples,
            shown,
            w,
            h,
            cx as int,
            cy as int,
        );
    }
    lemma_near_peak(m, k, values, exact, 71real / 10000real);
    assert forall|i: int| 0 <= i < w * h implies is_bounded(
        k,
        #[trigger] samples[i],
        1real + micro(80),
    ) by {
        assert(is_near(k, samples[i], shown[i], micro(80)));
        assert(size(shown[i]) <= 1real);
    }
    lemma_rounded_channel(m, k, samples, w, h, nx, ny);
}

/// A number that is close to another is recorded on a scale at most one step away.
#[verifier::spinoff_prover]
proof fn lemma_near_level<N>(m: Model<N>, k: Meaning<N>, value: N, x: real, steps: int)
    requires
        is_rounded(m, k),
        is_near(k, value, x, 71real / 10000real),
        is_bounded(k, value, 1007real / 1000real),
        0real <= x,
        1 <= steps <= 63,
    ensures
        -1 <= quantized(m, value, steps) - k.exact.round(steps as real * x) <= 1,
        quantized(m, value, steps) <= 63,
        k.exact.round(steps as real * x) <= 66,
{
    lemma_unit();
    lemma_integer(m, k, steps);
    lemma_rounded_level(m, k, value, steps);
    let s = steps as real;
    let v = k.value(value);
    let product = m.times(m.from_int(steps), value);
    lemma_times(m, k, m.from_int(steps), value, s, 1007real / 1000real);
    let p = k.value(product);
    assert(unit() * (s * (1007real / 1000real)) <= 1real / 1000real) by (nonlinear_arith)
        requires
            unit() == 1real / 16777216real,
            1real <= s <= 63real,
    ;
    let y = s * x;
    assert(size(s * v - y) <= 45real / 100real && 0real <= y <= 65real) by (nonlinear_arith)
        requires
            y == s * x,
            size(v - x) <= 71real / 10000real,
            0real <= x <= 102real / 100real,
            1real <= s <= 63real,
    {
        assert(s * v - y == s * (v - x));
        assert(size(s * (v - x)) <= s * (71real / 10000real));
    }
    assert(size(p - y) <= 46real / 100real);
    let a = quantized(m, value, steps);
    let b = k.exact.round(y);
    assert(size(a as real - y) <= 97real / 100real);
    assert(size(b as real - y) <= half());
}

/// In rounded arithmetic what the header and the alpha byte of the hash of an image without an
/// empty side record is at most one step away from the formulas: transparency, orientation and
/// proportions are the same, and every average and every scale differs by one at most.
#[verifier::spinoff_prover]
pub proof fn rounded_header_is_near_formula<N>(
    m: Model<N>,
    k: Meaning<N>,
    w: int,
    h: int,
    rgba: Seq<u8>,
)
    requires
        is_rounded(m, k),
        0 < w <= MAX_SIDE,
        0 < h <= MAX_SIDE,
    ensures
        ({
            let a = header_of(thumb_hash(m, w, h, rgba));
            let b = formula_header(k.exact, w, h, rgba);
            &&& a.has_alpha == b.has_alpha
            &&& a.is_landscape == b.is_landscape
            &&& a.extent == b.extent
            &&& -1 <= a.l_dc - b.l_dc <= 1
            &&& -1 <= a.p_dc - b.p_dc <= 1
            &&& -1 <= a.q_dc - b.q_dc <= 1
            &&& -1 <= a.l_scale - b.l_scale <= 1
            &&& -1 <= a.p_scale - b.p_scale <= 1
            &&& -1 <= a.q_scale - b.q_scale <= 1
        }),
        alpha_of(thumb_hash(m, w, h, rgba)) is Some == formula_alpha(k.exact, w, h, rgba) is Some,
        alpha_of(thumb_hash(m, w, h, rgba)) matches Some((dc, scale)) ==> {
            let (exact_dc, exact_scale) = formula_alpha(k.exact, w, h, rgba)->Some_0;
            -1 <= dc - exact_dc <= 1 && -1 <= scale - exact_scale <= 1
        },
{
    let n = w * h;
    assert(0 < n <= 10000) by (nonlinear_arith)
        requires
            n == w * h,
            0 < w <= 100,
            0 < h <= 100,
    ;
    rounded_averages_read_back(m, k, w, h, rgba);
    rounded_recorded_averages(m, k, w, h, rgba);
    hash_is_quantized_transforms(k.exact, w, h, rgba);
    every_image_reads_back(k.exact, w, h, rgba);
    recorded_averages(k.exact, w, h, rgba);
    lemma_near_scales(m, k, w, h, rgba);
}

/// The recorded scales.
#[verifier::spinoff_prover]
proof fn lemma_near_scales<N>(m: Model<N>, k: Meaning<N>, w: int, h: int, rgba: Seq<u8>)
    requires
        is_rounded(m, k),
        0 < w <= MAX_SIDE,
        0 < h <= MAX_SIDE,
    ensures
        ({
            let a = encoded_header(m, w, h, rgba);
            let b = formula_header(k.exact, w, h, rgba);
            &&& -1 <= a.l_scale - b.l_scale <= 1
            &&& -1 <= a.p_scale - b.p_scale <= 1
            &&& -1 <= a.q_scale - b.q_scale <= 1
        }),
        encoded_alpha(m, w, h, rgba) matches Some((_, scale)) ==> {
            let (_, exact_scale) = formula_alpha(k.exact, w, h, rgba)->Some_0;
            -1 <= scale - exact_scale <= 1
        },
{
    let n = w * h;
    assert(0 < n <= 10000) by (nonlinear_arith)
        requires
            n == w * h,
            0 < w <= 100,
            0 < h <= 100,
    ;
    let alpha = has_alpha(rgba, n);
    let (nx, ny) = used_luma(w, h, alpha);
    lemma_luma_extent(luma_limit(alpha), w, max_of(w, h));
    lemma_luma_extent(luma_limit(alpha), h, max_of(w, h));
    lemma_near_planes(m, k, rgba, n);
    let (l, p, q, a) = (
        plane_l(m, rgba, n),
        plane_p(m, rgba, n),
        plane_q(m, rgba, n),
        plane_a(m, rgba, n),
    );
    let (xl, xp, xq, xa) = (
        shown_plane_l(rgba, n),
        shown_plane_p(rgba, n),
        shown_plane_q(rgba, n),
        shown_plane_a(rgba, n),
    );
    lemma_near_scale(m, k, l, xl, w, h, nx, ny);
    lemma_near_scale(m, k, p, xp, w, h, 3, 3);
    lemma_near_scale(m, k, q, xq, w, h, 3, 3);
    lemma_near_scale(m, k, a, xa, w, h, 5, 5);
    let e = k.exact;
    lemma_near_level(
        m,
        k,
        channel_scale(m, l, w, h, nx, ny),
        peak(transforms(e, xl, w, h, nx, ny)),
        31,
    );
    lemma_near_level(
        m,
        k,
        channel_scale(m, p, w, h, 3, 3),
        peak(transforms(e, xp, w, h, 3, 3)),
        63,
    );
    lemma_near_level(
        m,
        k,
        channel_scale(m, q, w, h, 3, 3),
        peak(transforms(e, xq, w, h, 3, 3)),
        63,
    );
    lemma_near_level(
        m,
        k,
        channel_scale(m, a, w, h, 5, 5),
        peak(transforms(e, xa, w, h, 5, 5)),
        15,
    );
}

/// The channels of an image are close to what it shows.
proof fn lemma_near_planes<N>(m: Model<N>, k: Meaning<N>, rgba: Seq<u8>, n: int)
    requires
        is_rounded(m, k),
        0 < n <= 10000,
    ensures
        ({
            let (l, p, q, a) = (
                plane_l(m, rgba, n),
                plane_p(m, rgba, n),
                plane_q(m, rgba, n),
                plane_a(m, rgba, n),
            );
            let (xl, xp, xq, xa) = (
                shown_plane_l(rgba, n),
                shown_plane_p(rgba, n),
                shown_plane_q(rgba, n),
                shown_plane_a(rgba, n),
            );
            &&& forall|i: int| 0 <= i < n ==> is_near(k, #[trigger] l[i], xl[i], micro(80))
            &&& forall|i: int| 0 <= i < n ==> is_near(k, #[trigger] p[i], xp[i], micro(80))
            &&& forall|i: int| 0 <= i < n ==> is_near(k, #[trigger] q[i], xq[i], micro(80))
            &&& forall|i: int| 0 <= i < n ==> is_near(k, #[trigger] a[i], xa[i], micro(80))
            &&& forall|i: int| 0 <= i < n ==> size(#[trigger] xl[i]) <= 1real
            &&& forall|i: int| 0 <= i < n ==> size(#[trigger] xp[i]) <= 1real
            &&& forall|i: int| 0 <= i < n ==> size(#[trigger] xq[i]) <= 1real
            &&& forall|i: int| 0 <= i < n ==> size(#[trigger] xa[i]) <= 1real
        }),
{
    let l = plane_l(m, rgba, n);
    assert forall|i: int| 0 <= i < n implies is_near(
        k,
        #[trigger] l[i],
        shown_plane_l(rgba, n)[i],
        micro(80),
    ) by {
        channel_values_are_near(m, k, rgba, n, i);
    }
    let p = plane_p(m, rgba, n);
    assert forall|i: int| 0 <= i < n implies is_near(
        k,
        #[trigger] p[i],
        shown_plane_p(rgba, n)[i],
        micro(80),
    ) by {
        channel_values_are_near(m, k, rgba, n, i);
    }
    let q = plane_q(m, rgba, n);
    assert forall|i: int| 0 <= i < n implies is_near(
        k,
        #[trigger] q[i],
        shown_plane_q(rgba, n)[i],
        micro(80),
    ) by {
        channel_values_are_near(m, k, rgba, n, i);
    }
    let a = plane_a(m, rgba, n);
    assert forall|i: int| 0 <= i < n implies is_near(
        k,
        #[trigger] a[i],
        shown_plane_a(rgba, n)[i],
        micro(80),
    ) by {
        channel_values_are_near(m, k, rgba, n, i);
    }
    let xl = shown_plane_l(rgba, n);
    assert forall|i: int| 0 <= i < n implies size(#[trigger] xl[i]) <= 1real by {
        channel_values_are_near(m, k, rgba, n, i);
    }
    let xp = shown_plane_p(rgba, n);
    assert forall|i: int| 0 <= i < n implies size(#[trigger] xp[i]) <= 1real by {
        channel_values_are_near(m, k, rgba, n, i);
    }
    let xq = shown_plane_q(rgba, n);
    assert forall|i: int| 0 <= i < n implies size(#[trigger] xq[i]) <= 1real by {
        channel_values_are_near(m, k, rgba, n, i);
    }
    let xa = shown_plane_a(rgba, n);
    assert forall|i: int| 0 <= i < n implies size(#[trigger] xa[i]) <= 1real by {
        channel_values_are_near(m, k, rgba, n, i);
    }
}

/// Whether the nibbles `a` of a channel with the scale `scale` differ from `b` by one step and a
/// little at most, or by as little as `11 / 100` in proportion to the scale.
pub open spec fn are_near_levels<N>(k: Meaning<N>, scale: N, a: Seq<u8>, b: Seq<u8>) -> bool {
    &&& a.len() == b.len()
    &&& forall|j: int|
        0 <= j < a.len() ==> k.value(scale) * size(#[trigger] a[j] as real - b[j] as real)
            <= 102real / 100real * k.value(scale) + 11real / 100real
}

/// The coefficients as parts of two scales that are close to each other, in proportion to the
/// scale.
#[verifier::spinoff_prover]
proof fn lemma_part_difference(s: real, v: real, p: real, x: real, t: real)
    requires
        0real < s,
        0real < p,
        size(v - x) <= t,
        size(s - p) <= t,
        size(x) <= p,
    ensures
        s * size(half() * (v / s) - half() * (x / p)) <= t,
{
    let a = v / s;
    let b = x / p;
    assert(a * s == v && b * p == x && size(b) <= 1real) by (nonlinear_arith)
        requires
            0real < s,
            0real < p,
            a == v / s,
            b == x / p,
            size(x) <= p,
    {
        assert(b * p == x);
    }
    let d = b * (p - s);
    assert(s * (a - b) == (v - x) + d) by (nonlinear_arith)
        requires
            a * s == v,
            b * p == x,
            d == b * (p - s),
    ;
    assert(size(d) <= t) by (nonlinear_arith)
        requires
            d == b * (p - s),
            size(b) <= 1real,
            size(s - p) <= t,
    ;
    assert(s * size(half() * a - half() * b) == half() * size(s * (a - b))) by (nonlinear_arith)
        requires
            0real < s,
            half() == 1real / 2real,
    {
        assert(half() * a - half() * b == half() * (a - b));
        assert(size(s * (a - b)) == s * size(a - b));
        assert(size(half() * (a - b)) == half() * size(a - b));
    }
    assert(half() * size(s * (a - b)) <= t) by (nonlinear_arith)
        requires
            size(s * (a - b)) <= 2real * t,
            half() == 1real / 2real,
    ;
}

/// The level of a number that lies between zero and one, up to one millionth.
#[verifier::spinoff_prover]
proof fn lemma_nibble_level<N>(m: Model<N>, k: Meaning<N>, part: N)
    requires
        is_rounded(m, k),
        k.finite(part),
        -micro(1) <= k.value(part) <= 1real + micro(1),
    ensures
        quantized(m, part, 15) <= 15,
        size(quantized(m, part, 15) as real - 15real * k.value(part)) <= 501real / 1000real,
{
    lemma_unit();
    lemma_integer(m, k, 15);
    lemma_rounded_level(m, k, part, 15);
    lemma_times(m, k, m.from_int(15), part, 15real, 1007real / 1000real);
}

/// A nibble, where the coefficient and the scale are close to those of the formula.
#[verifier::spinoff_prover]
proof fn lemma_near_nibble<N>(m: Model<N>, k: Meaning<N>, value: N, scale: N, x: real, p: real)
    requires
        is_rounded(m, k),
        is_near(k, value, x, 71real / 10000real),
        is_near(k, scale, p, 71real / 10000real),
        is_bounded(k, value, k.value(scale)),
        k.value(scale) <= 1007real / 1000real,
        is_distinct(k, scale),
        size(x) <= p,
    ensures
        ({
            let one_half = m.ratio(1, 2);
            let part = m.plus(one_half, m.times(m.over(one_half, scale), value));
            let level = if p > 0real {
                k.exact.round(15real * (half() + half() / p * x))
            } else {
                k.exact.round(0real)
            };
            &&& quantized(m, part, 15) <= 15
            &&& level <= 15
            &&& k.value(scale) * size(quantized(m, part, 15) as real - level as real) <= 102real
                / 100real * k.value(scale) + 11real / 100real
        }),
{
    lemma_part(m, k, value, scale);
    let one_half = m.ratio(1, 2);
    let part = m.plus(one_half, m.times(m.over(one_half, scale), value));
    let s = k.value(scale);
    let v = k.value(value);
    let a = k.value(part);
    assert(size(half() * (v / s)) <= half()) by (nonlinear_arith)
        requires
            size(v) <= s,
            0real < s,
            half() == 1real / 2real,
    {
        assert(v / s * s == v);
        assert(size(v / s) <= 1real);
    }
    lemma_nibble_level(m, k, part);
    let q = quantized(m, part, 15) as real;
    if p > 0real {
        lemma_part_difference(s, v, p, x, 71real / 10000real);
        let b = half() + half() * (x / p);
        assert(half() / p * x == half() * (x / p) && size(half() * (x / p)) <= half())
            by (nonlinear_arith)
            requires
                size(x) <= p,
                0real < p,
                half() == 1real / 2real,
        {
            assert(x / p * p == x);
            assert(size(x / p) <= 1real);
            assert(half() / p * p == half());
        }
        let level = k.exact.round(15real * b);
        assert(size(level as real - 15real * b) <= half());
        let d = half() * (v / s) - half() * (x / p);
        let r = size(q - level as real);
        assert(r <= 15real * size(d) + 1002real / 1000real);
        assert(s * r <= 15real * (s * size(d)) + 1002real / 1000real * s) by (nonlinear_arith)
            requires
                r <= 15real * size(d) + 1002real / 1000real,
                0real < s,
        ;
    } else {
        let level = k.exact.round(0real);
        assert(level == 0);
        let r = size(q - level as real);
        assert(s * r <= 15real * s) by (nonlinear_arith)
            requires
                r <= 15real,
                0real < s,
        ;
    }
}

/// The nibbles of a channel.
#[verifier::spinoff_prover]
proof fn lemma_near_nibbles<N>(
    m: Model<N>,
    k: Meaning<N>,
    samples: Seq<N>,
    shown: Seq<real>,
    w: int,
    h: int,
    nx: int,
    ny: int,
)
    requires
        is_rounded(m, k),
        1 <= w <= MAX_SIDE,
        1 <= h <= MAX_SIDE,
        samples.len() == w * h,
        shown.len() == w * h,
        forall|i: int| 0 <= i < w * h ==> is_near(k, #[trigger] samples[i], shown[i], micro(80)),
        forall|i: int| 0 <= i < w * h ==> size(#[trigger] shown[i]) <= 1real,
        1 <= nx <= 7,
        1 <= ny <= 7,
    ensures
        are_near_levels(
            k,
            channel_scale(m, samples, w, h, nx, ny),
            quantized_ac(m, channel_ac(m, samples, w, h, nx, ny)),
            levels(k.exact, transforms(k.exact, shown, w, h, nx, ny)),
        ),
{
    let values = other_coefficients(m, samples, w, h, nx, ny);
    let exact = transforms(k.exact, shown, w, h, nx, ny);
    let scale = channel_scale(m, samples, w, h, nx, ny);
    let ac = channel_ac(m, samples, w, h, nx, ny);
    let nibbles = quantized_ac(m, ac);
    let formula = levels(k.exact, exact);
    let list = triangle(nx, ny).drop_first();
    lemma_triangle_bounds(nx, ny);
    lemma_triangle_first(nx, ny);
    lemma_near_scale(m, k, samples, shown, w, h, nx, ny);
    assert forall|j: int| 0 <= j < values.len() implies is_near(
        k,
        #[trigger] values[j],
        exact[j],
        71real / 10000real,
    ) by {
        assert(list[j] == triangle(nx, ny)[j + 1]);
        let (cx, cy) = list[j];
        rounded_coefficient_is_near_transform(
            m,
            k,
            samples,
            shown,
            w,
            h,
            cx as int,
            cy as int,
        );
    }
    assert(forall|j: int| 0 <= j < values.len() ==> k.finite(#[trigger] values[j])) by {
        assert forall|j: int| 0 <= j < values.len() implies k.finite(#[trigger] values[j]) by {
            assert(is_near(k, values[j], exact[j], 71real / 10000real));
        }
    }
    lemma_members(m, k, values);
    lemma_peak(k.exact, exact);
    lemma_integer(m, k, 0);
    let s = k.value(scale);
    assert forall|j: int| 0 <= j < nibbles.len() implies s * size(
        #[trigger] nibbles[j] as real - formula[j] as real,
    ) <= 102real / 100real * s + 11real / 100real by {
        let r = size(nibbles[j] as real - formula[j] as real);
        if is_distinct(k, scale) {
            lemma_distinct(k, scale);
            assert(is_near(k, values[j], exact[j], 71real / 10000real));
            assert(is_bounded(k, values[j], s));
            assert(size(exact[j]) <= peak(exact));
            lemma_near_nibble(m, k, values[j], scale, exact[j], peak(exact));
        } else {
            assert(s * r <= 11real / 100real) by (nonlinear_arith)
                requires
                    0real <= s,
                    s * limit() < half(),
                    half() == 1real / 2real,
                    limit() >= 2000real,
                    r <= 255real,
            {
                assert(s * 2000real <= s * limit());
                assert(s * r <= s * 255real);
            }
        }
    }
}

/// In rounded arithmetic every nibble of the hash of an image without an empty side differs from
/// the formula by one step and a little at most, or by as little as `11 / 100` in proportion to
/// the scale of its channel.
#[verifier::spinoff_prover]
pub proof fn rounded_nibbles_are_near_formula<N>(
    m: Model<N>,
    k: Meaning<N>,
    w: int,
    h: int,
    rgba: Seq<u8>,
)
    requires
        is_rounded(m, k),
        0 < w <= MAX_SIDE,
        0 < h <= MAX_SIDE,
    ensures
        ({
            let n = w * h;
            let alpha = has_alpha(rgba, n);
            let (nx, ny) = used_luma(w, h, alpha);
            let e = k.exact;
            let (l, p, q, a) = (
                plane_l(m, rgba, n),
                plane_p(m, rgba, n),
                plane_q(m, rgba, n),
                plane_a(m, rgba, n),
            );
            &&& are_near_levels(
                k,
                channel_scale(m, l, w, h, nx, ny),
                quantized_ac(m, channel_ac(m, l, w, h, nx, ny)),
                levels(e, transforms(e, shown_plane_l(rgba, n), w, h, nx, ny)),
            )
            &&& are_near_levels(
                k,
                channel_scale(m, p, w, h, 3, 3),
                quantized_ac(m, channel_ac(m, p, w, h, 3, 3)),
                levels(e, transforms(e, shown_plane_p(rgba, n), w, h, 3, 3)),
            )
            &&& are_near_levels(
                k,
                channel_scale(m, q, w, h, 3, 3),
                quantized_ac(m, channel_ac(m, q, w, h, 3, 3)),
                levels(e, transforms(e, shown_plane_q(rgba, n), w, h, 3, 3)),
            )
            &&& are_near_levels(
                k,
                channel_scale(m, a, w, h, 5, 5),
                quantized_ac(m, channel_ac(m, a, w, h, 5, 5)),
                levels(e, transforms(e, shown_plane_a(rgba, n), w, h, 5, 5)),
            )
        }),
{
    let n = w * h;
    assert(0 < n <= 10000) by (nonlinear_arith)
        requires
            n == w * h,
            0 < w <= 100,
            0 < h <= 100,
    ;
    let alpha = has_alpha(rgba, n);
    let (nx, ny) = used_luma(w, h, alpha);
    lemma_luma_extent(luma_limit(alpha), w, max_of(w, h));
    lemma_luma_extent(luma_limit(alpha), h, max_of(w, h));
    lemma_near_planes(m, k, rgba, n);
    let (l, p, q, a) = (
        plane_l(m, rgba, n),
        plane_p(m, rgba, n),
        plane_q(m, rgba, n),
        plane_a(m, rgba, n),
    );
    let (xl, xp, xq, xa) = (
        shown_plane_l(rgba, n),
        shown_plane_p(rgba, n),
        shown_plane_q(rgba, n),
        shown_plane_a(rgba, n),
    );
    lemma_near_nibbles(m, k, l, xl, w, h, nx, ny);
    lemma_near_nibbles(m, k, p, xp, w, h, 3, 3);
    lemma_near_nibbles(m, k, q, xq, w, h, 3, 3);
    lemma_near_nibbles(m, k, a, xa, w, h, 5, 5);
}

/// In rounded arithmetic every pixel that a hash is decoded to differs from the formula by 11 at
/// most in red, green and blue and by 5 at most in alpha, which is the same where there is no
/// alpha channel.
pub proof fn rounded_pixel_is_near_formula<N>(
    m: Model<N>,
    k: Meaning<N>,
    hash: Seq<u8>,
    x: int,
    y: int,
)
    requires
        is_rounded(m, k),
        is_complete(hash),
        0 <= x < size_of_hash(hash).0,
        0 <= y < size_of_hash(hash).1,
    ensures
        ({
            let pixel = decoded_pixel(m, hash, x, y);
            let exact = formula_pixel(k.exact, hash, x, y);
            &&& -11 <= pixel[0] - exact[0] <= 11
            &&& -11 <= pixel[1] - exact[1] <= 11
            &&& -11 <= pixel[2] - exact[2] <= 11
            &&& -5 <= pixel[3] - exact[3] <= 5
            &&& !header_of(hash).has_alpha ==> pixel[3] == 255 && exact[3] == 255
        }),
{
    rounded_decoded_pixel(m, k, hash, x, y);
    decoded_pixel_is_sum(k.exact, hash, x, y);
}

} // verus!
