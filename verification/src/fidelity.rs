//! What a hash keeps of an image, in exact arithmetic: everything that it records fits into its
//! bits, so that it is read back as it was written, and the average colour that is read back is
//! close to that of the image.
use crate::arithmetic::Model;
use crate::base91::{decoded, encoded, is_text};
use crate::color::{
    alpha_sum, average, component, composite, has_alpha, pixel_lpqa, plane_a, plane_l, plane_p,
    plane_q, weighted_sum,
};
use crate::cosine::{cosine, cosines, frequency};
use crate::decoder::{decoded_rgba, size_of_hash};
use crate::encoder::{
    encoded_alpha, encoded_header, encoded_nibbles, quantized, quantized_ac, quantized_signed,
    thumb_hash, used_luma,
};
use crate::exact::{
    half, is_exact, lemma_sum_eq, recurrence_gives_cosines, separable_forward_transform, sum,
};
use crate::forward::{
    channel_ac, channel_scale, coefficient, column, column_sums, dot, magnitude, other_coefficients,
};
use crate::geometry::{
    lemma_luma_extent, luma_limit, luma_size, max_of, triangle, DECODED_SIDE, MAX_SIDE,
};
use crate::header::header_of;
use crate::image::{
    lemma_shown, lemma_weighted_sum_bounds, mean_component, shown_a, shown_l, shown_p, shown_q,
};
use crate::laws::{
    announced_components, encoded_hash_decodes, encoded_hash_reads_back, encoded_text_decodes,
};
use crate::parts::{alpha_of, is_complete, nibbles_of, parts_fit};
use vstd::prelude::*;

verus! {

/// The magnitude of a real number.
pub open spec fn size(a: real) -> real {
    if a < 0real {
        -a
    } else {
        a
    }
}

/// Conversion to a real number keeps products.
pub proof fn lemma_real_product(a: int, b: int)
    requires
        0 <= b,
    ensures
        (a * b) as real == a as real * b as real,
    decreases b,
{
    if b > 0 {
        lemma_real_product(a, b - 1);
        assert(a * b == a * (b - 1) + a) by (nonlinear_arith);
        assert((b - 1) as real == b as real - 1real);
        assert(a as real * b as real == a as real * (b as real - 1real) + a as real)
            by (nonlinear_arith);
    } else {
        assert(a * b == 0) by (nonlinear_arith)
            requires
                b == 0,
        ;
        assert(a as real * 0real == 0real) by (nonlinear_arith);
    }
}

/// Cosines lie between minus one and one.
pub proof fn lemma_cosine_bound(m: Model<real>, len: int, c: int, i: int)
    requires
        is_exact(m),
        0 <= i,
    ensures
        size(cosine(m, len, c, i)) <= 1real,
{
    recurrence_gives_cosines(m, frequency(m, c, len), i);
}

/// A sum of products is at most the number of its terms times the largest magnitude among them.
proof fn lemma_dot_bound(m: Model<real>, a: Seq<real>, b: Seq<real>, n: int, bound: real)
    requires
        is_exact(m),
        0 <= n <= a.len(),
        n <= b.len(),
        0real <= bound,
        forall|i: int| 0 <= i < n ==> size(#[trigger] a[i]) <= bound,
        forall|i: int| 0 <= i < n ==> size(#[trigger] b[i]) <= 1real,
    ensures
        size(dot(m, a, b, n)) <= n as real * bound,
    decreases n,
{
    if n > 0 {
        lemma_dot_bound(m, a, b, n - 1, bound);
        let x = a[n - 1];
        let y = b[n - 1];
        assert(size(x * y) <= bound) by (nonlinear_arith)
            requires
                size(x) <= bound,
                size(y) <= 1real,
        ;
        assert((n - 1) as real == n as real - 1real);
        assert((n as real - 1real) * bound + bound == n as real * bound) by (nonlinear_arith);
    } else {
        assert(0real * bound == 0real) by (nonlinear_arith);
    }
}

/// No coefficient is larger in magnitude than the largest sample.
pub proof fn lemma_coefficient_bound(
    m: Model<real>,
    samples: Seq<real>,
    w: int,
    h: int,
    cx: int,
    cy: int,
)
    requires
        is_exact(m),
        0 <= w <= MAX_SIDE,
        0 <= h <= MAX_SIDE,
        samples.len() == w * h,
        forall|i: int| 0 <= i < samples.len() ==> size(#[trigger] samples[i]) <= 1real,
    ensures
        size(coefficient(m, samples, w, h, cx, cy)) <= 1real,
{
    let sums = column_sums(m, samples, w, h, cy);
    let n = (w * h) as real;
    assert forall|x: int| 0 <= x < w implies size(#[trigger] sums[x]) <= h as real by {
        let col = column(samples, w, h, x);
        let cos = cosines(m, h, cy);
        assert forall|y: int| 0 <= y < h implies size(#[trigger] col[y]) <= 1real by {
            assert(0 <= y * w + x < w * h) by (nonlinear_arith)
                requires
                    0 <= x < w,
                    0 <= y < h,
            ;
        }
        assert forall|y: int| 0 <= y < h implies size(#[trigger] cos[y]) <= 1real by {
            lemma_cosine_bound(m, h, cy, y);
        }
        lemma_dot_bound(m, col, cos, h, 1real);
    }
    let cos = cosines(m, w, cx);
    assert forall|x: int| 0 <= x < w implies size(#[trigger] cos[x]) <= 1real by {
        lemma_cosine_bound(m, w, cx, x);
    }
    lemma_dot_bound(m, sums, cos, w, h as real);
    let total = dot(m, sums, cos, w);
    lemma_real_product(w, h);
    assert(0 <= w * h <= 10000) by (nonlinear_arith)
        requires
            0 <= w <= 100,
            0 <= h <= 100,
    ;
    if w * h > 0 {
        let share = 1real / n;
        assert(m.ratio(1, w * h) == share);
        assert(size(total * share) <= 1real) by (nonlinear_arith)
            requires
                size(total) <= n,
                n >= 1real,
                share == 1real / n,
        ;
    } else {
        let share = m.ratio(1, w * h);
        assert(total == 0real);
        assert(total * share == 0real) by (nonlinear_arith)
            requires
                total == 0real,
        ;
    }
}

/// A sum can be cut in two.
proof fn lemma_sum_cut(f: spec_fn(int) -> real, start: int, n: int)
    requires
        0 <= start,
        0 <= n,
    ensures
        sum(f, start + n) == sum(f, start) + sum(|i: int| f(start + i), n),
    decreases n,
{
    if n > 0 {
        lemma_sum_cut(f, start, n - 1);
        assert(start + n - 1 == start + (n - 1));
    }
}

/// The sum of the sums of all rows is the sum of all samples.
pub proof fn lemma_sum_of_rows(f: spec_fn(int) -> real, w: int, h: int)
    requires
        0 <= w,
        0 <= h,
    ensures
        sum(|y: int| sum(|x: int| f(y * w + x), w), h) == sum(f, w * h),
    decreases h,
{
    let row = |y: int| sum(|x: int| f(y * w + x), w);
    if h > 0 {
        lemma_sum_of_rows(f, w, h - 1);
        assert(w * h == w * (h - 1) + w && w * (h - 1) >= 0 && w * (h - 1) == (h - 1) * w)
            by (nonlinear_arith)
            requires
                0 <= w,
                0 < h,
        ;
        lemma_sum_cut(f, w * (h - 1), w);
        lemma_sum_eq(
            |x: int| f(w * (h - 1) + x),
            |x: int| f((h - 1) * w + x),
            w,
        );
        assert(sum(row, h) == sum(row, h - 1) + row(h - 1));
    } else {
        assert(w * h == 0) by (nonlinear_arith)
            requires
                h == 0,
        ;
    }
}

/// The average of `samples`.
pub open spec fn mean(samples: Seq<real>) -> real {
    sum(|i: int| samples[i], samples.len() as int) / (samples.len() as real)
}

/// In exact arithmetic the coefficient of the frequencies `(0, 0)` is the average of the
/// samples.
pub proof fn first_coefficient_is_mean(m: Model<real>, samples: Seq<real>, w: int, h: int)
    requires
        is_exact(m),
        0 < w <= u32::MAX,
        0 < h <= u32::MAX,
        w * h <= u32::MAX,
        samples.len() == w * h,
    ensures
        coefficient(m, samples, w, h, 0, 0) == mean(samples),
{
    separable_forward_transform(m, samples, w, h, 0, 0);
    let f = |i: int| samples[i];
    let rows = |y: int|
        sum(|x: int| samples[y * w + x] * cosine(m, w, 0, x) * cosine(m, h, 0, y), w);
    let plain = |y: int| sum(|x: int| f(y * w + x), w);
    assert forall|y: int| 0 <= y < h implies #[trigger] rows(y) == plain(y) by {
        let weighted = |x: int| samples[y * w + x] * cosine(m, w, 0, x) * cosine(m, h, 0, y);
        assert forall|x: int| 0 <= x < w implies #[trigger] weighted(x) == f(y * w + x) by {
            lemma_constant_cosine(m, w, x);
            lemma_constant_cosine(m, h, y);
        }
        lemma_sum_eq(weighted, |x: int| f(y * w + x), w);
    }
    lemma_sum_eq(rows, plain, h);
    lemma_sum_of_rows(f, w, h);
}

/// The cosine with frequency zero is one everywhere.
proof fn lemma_constant_cosine(m: Model<real>, len: int, i: int)
    requires
        is_exact(m),
        0 < len <= u32::MAX,
        0 <= i,
    ensures
        cosine(m, len, 0, i) == 1real,
{
    recurrence_gives_cosines(m, frequency(m, 0, len), i);
    let step = m.over(m.pi, m.from_int(len));
    assert(step * 0real == 0real) by (nonlinear_arith);
    assert(0real * (i as real + half()) == 0real) by (nonlinear_arith);
}

/// An average lies between bounds of what is averaged.
pub proof fn lemma_mean_bounds(samples: Seq<real>, lo: real, hi: real)
    requires
        samples.len() > 0,
        forall|i: int| 0 <= i < samples.len() ==> lo <= #[trigger] samples[i] <= hi,
    ensures
        lo <= mean(samples) <= hi,
{
    let n = samples.len() as real;
    let total = sum(|i: int| samples[i], samples.len() as int);
    lemma_sum_bounds(samples, samples.len() as int, lo, hi);
    assert(lo <= total / n <= hi) by (nonlinear_arith)
        requires
            n >= 1real,
            n * lo <= total <= n * hi,
    ;
}

proof fn lemma_sum_bounds(samples: Seq<real>, n: int, lo: real, hi: real)
    requires
        0 <= n <= samples.len(),
        forall|i: int| 0 <= i < samples.len() ==> lo <= #[trigger] samples[i] <= hi,
    ensures
        n as real * lo <= sum(|i: int| samples[i], n) <= n as real * hi,
    decreases n,
{
    let f = |i: int| samples[i];
    if n > 0 {
        lemma_sum_bounds(samples, n - 1, lo, hi);
        assert((n - 1) as real == n as real - 1real);
        assert(sum(f, n) == sum(f, n - 1) + samples[n - 1]);
        assert((n as real - 1real) * lo + lo == n as real * lo) by (nonlinear_arith);
        assert((n as real - 1real) * hi + hi == n as real * hi) by (nonlinear_arith);
    } else {
        assert(0real * lo == 0real && 0real * hi == 0real) by (nonlinear_arith);
    }
}

/// In exact arithmetic the computed average is the average.
proof fn lemma_average(m: Model<real>, rgba: Seq<u8>, n: int, c: int)
    requires
        is_exact(m),
        0 <= n <= 10000,
    ensures
        average(m, rgba, n, c) == mean_component(rgba, n, c),
{
    lemma_weighted_sum_bounds(rgba, c, n);
    if alpha_sum(rgba, n) > 0 {
        let s = weighted_sum(rgba, c, n) as real;
        let a = alpha_sum(rgba, n) as real;
        let d = a * 255real;
        assert(a >= 1real);
        assert(m.over(1real, d) == 1real / d);
        assert(s * (1real / d) == s / (255real * a)) by (nonlinear_arith)
            requires
                d == a * 255real,
                a >= 1real,
        ;
    }
}

/// In exact arithmetic a composited component is what the image shows.
proof fn lemma_composite(m: Model<real>, base: real, opacity: u8, value: u8)
    requires
        is_exact(m),
    ensures
        ({
            let alpha = opacity as real / 255real;
            composite(m, base, m.ratio(opacity as int, 255), value) == base * (1real - alpha)
                + alpha * (value as real / 255real)
        }),
{
    let alpha = opacity as real / 255real;
    let part = value as real / 255real;
    assert(m.ratio(opacity as int, 255) == alpha);
    assert(alpha / 255real * (value as real) == alpha * part) by (nonlinear_arith)
        requires
            part == value as real / 255real,
    ;
}

/// In exact arithmetic the channel values of a pixel are what the image shows: the luminance and
/// the alpha value lie between zero and one, and the chroma values between minus one and one.
pub proof fn channel_values_are_shown(m: Model<real>, rgba: Seq<u8>, n: int, i: int)
    requires
        is_exact(m),
        0 <= n <= 10000,
        0 <= i < n,
    ensures
        pixel_lpqa(m, rgba, n, i).l == shown_l(rgba, n, i),
        pixel_lpqa(m, rgba, n, i).p == shown_p(rgba, n, i),
        pixel_lpqa(m, rgba, n, i).q == shown_q(rgba, n, i),
        pixel_lpqa(m, rgba, n, i).a == shown_a(rgba, i),
        0real <= shown_l(rgba, n, i) <= 1real,
        -1real <= shown_p(rgba, n, i) <= 1real,
        -1real <= shown_q(rgba, n, i) <= 1real,
        0real <= shown_a(rgba, i) <= 1real,
{
    lemma_shown(rgba, n, 0, i);
    lemma_shown(rgba, n, 1, i);
    lemma_shown(rgba, n, 2, i);
    if has_alpha(rgba, n) {
        let opacity = component(rgba, i, 3);
        lemma_average(m, rgba, n, 0);
        lemma_average(m, rgba, n, 1);
        lemma_average(m, rgba, n, 2);
        lemma_composite(m, average(m, rgba, n, 0), opacity, component(rgba, i, 0));
        lemma_composite(m, average(m, rgba, n, 1), opacity, component(rgba, i, 1));
        lemma_composite(m, average(m, rgba, n, 2), opacity, component(rgba, i, 2));
        assert(m.ratio(opacity as int, 255) == opacity as real / 255real);
    } else {
        assert(!(component(rgba, i, 3) != 255));
        assert(m.ratio(1, 255) == 1real / 255real);
        assert(m.ratio(1, 3) == 1real / 3real);
        assert(m.ratio(1, 2) == 1real / 2real);
    }
}

/// In exact arithmetic the scale of a channel is at least as large as the magnitude of every
/// coefficient.
pub proof fn lemma_magnitude(m: Model<real>, values: Seq<real>)
    requires
        is_exact(m),
    ensures
        0real <= magnitude(m, values),
        forall|i: int|
            0 <= i < values.len() ==> size(#[trigger] values[i]) <= magnitude(m, values),
    decreases values.len(),
{
    if values.len() > 0 {
        let rest = values.drop_last();
        lemma_magnitude(m, rest);
        assert forall|i: int| 0 <= i < values.len() implies size(#[trigger] values[i])
            <= magnitude(m, values) by {
            if i < rest.len() {
                assert(size(rest[i]) <= magnitude(m, rest));
            }
        }
    }
}

/// In exact arithmetic the scale of a channel is at most as large as a bound of the magnitudes of
/// its coefficients.
pub proof fn lemma_magnitude_limit(m: Model<real>, values: Seq<real>, bound: real)
    requires
        is_exact(m),
        0real <= bound,
        forall|i: int| 0 <= i < values.len() ==> size(#[trigger] values[i]) <= bound,
    ensures
        magnitude(m, values) <= bound,
    decreases values.len(),
{
    if values.len() > 0 {
        lemma_magnitude_limit(m, values.drop_last(), bound);
        assert(size(values.last()) <= bound);
    }
}

/// In exact arithmetic the coefficients of a channel whose samples are at most one in magnitude
/// are recorded as numbers from zero to one, and its scale too.
pub proof fn lemma_channel_bounds(
    m: Model<real>,
    samples: Seq<real>,
    w: int,
    h: int,
    nx: int,
    ny: int,
)
    requires
        is_exact(m),
        0 <= w <= MAX_SIDE,
        0 <= h <= MAX_SIDE,
        samples.len() == w * h,
        forall|i: int| 0 <= i < samples.len() ==> size(#[trigger] samples[i]) <= 1real,
    ensures
        size(coefficient(m, samples, w, h, 0, 0)) <= 1real,
        0real <= channel_scale(m, samples, w, h, nx, ny) <= 1real,
        forall|i: int|
            0 <= i < channel_ac(m, samples, w, h, nx, ny).len() ==> 0real <= #[trigger] channel_ac(
                m,
                samples,
                w,
                h,
                nx,
                ny,
            )[i] <= 1real,
{
    let values = other_coefficients(m, samples, w, h, nx, ny);
    let list = triangle(nx, ny).drop_first();
    let scale = channel_scale(m, samples, w, h, nx, ny);
    lemma_coefficient_bound(m, samples, w, h, 0, 0);
    assert forall|i: int| 0 <= i < values.len() implies size(#[trigger] values[i]) <= 1real by {
        lemma_coefficient_bound(m, samples, w, h, list[i].0 as int, list[i].1 as int);
    }
    lemma_magnitude(m, values);
    lemma_magnitude_limit(m, values, 1real);
    assert forall|i: int| 0 <= i < values.len() implies 0real <= #[trigger] channel_ac(
        m,
        samples,
        w,
        h,
        nx,
        ny,
    )[i] <= 1real by {
        let v = values[i];
        if scale > 0real {
            lemma_normalized(m, v, scale);
        }
    }
}

/// A number of magnitude at most `scale` is brought to a number from zero to one.
pub proof fn lemma_normalized(m: Model<real>, v: real, scale: real)
    requires
        is_exact(m),
        0real < scale,
        size(v) <= scale,
    ensures
        ({
            let u = m.plus(m.ratio(1, 2), m.times(m.over(m.ratio(1, 2), scale), v));
            0real <= u <= 1real && (2real * u - 1real) * scale == v
        }),
{
    let f = half() / scale;
    assert(m.ratio(1, 2) == half());
    assert(-half() <= f * v <= half() && 2real * (f * v) * scale == v) by (nonlinear_arith)
        requires
            f == half() / scale,
            half() == 1real / 2real,
            0real < scale,
            size(v) <= scale,
    ;
    let u = half() + f * v;
    assert(2real * u - 1real == 2real * (f * v));
}

/// In exact arithmetic a number from zero to one is recorded as the closest of the numbers from
/// zero to `steps`.
pub proof fn lemma_quantized(m: Model<real>, value: real, steps: int)
    requires
        is_exact(m),
        0real <= value <= 1real,
        0 <= steps <= 63,
    ensures
        quantized(m, value, steps) <= steps,
        size(quantized(m, value, steps) as real - steps as real * value) <= half(),
{
    let s = steps as real;
    assert(0real <= s * value <= s) by (nonlinear_arith)
        requires
            0real <= value <= 1real,
            0real <= s,
    ;
}

/// In exact arithmetic a number from minus one to one is recorded as the closest of the numbers
/// from zero to 63.
pub proof fn lemma_quantized_signed(m: Model<real>, value: real)
    requires
        is_exact(m),
        -1real <= value <= 1real,
    ensures
        quantized_signed(m, value) <= 63,
        size(quantized_signed(m, value) as real - 63real / 2real * (1real + value)) <= half(),
{
    assert(m.ratio(63, 2) == 63real / 2real);
}

/// The samples of the channels of an image are at most one in magnitude.
pub proof fn lemma_plane_bounds(m: Model<real>, rgba: Seq<u8>, n: int)
    requires
        is_exact(m),
        0 <= n <= 10000,
    ensures
        forall|i: int| 0 <= i < n ==> 0real <= #[trigger] plane_l(m, rgba, n)[i] <= 1real,
        forall|i: int| 0 <= i < n ==> -1real <= #[trigger] plane_p(m, rgba, n)[i] <= 1real,
        forall|i: int| 0 <= i < n ==> -1real <= #[trigger] plane_q(m, rgba, n)[i] <= 1real,
        forall|i: int| 0 <= i < n ==> 0real <= #[trigger] plane_a(m, rgba, n)[i] <= 1real,
{
    assert forall|i: int| 0 <= i < n implies 0real <= #[trigger] plane_l(m, rgba, n)[i]
        <= 1real by {
        channel_values_are_shown(m, rgba, n, i);
    }
    assert forall|i: int| 0 <= i < n implies -1real <= #[trigger] plane_p(m, rgba, n)[i]
        <= 1real by {
        channel_values_are_shown(m, rgba, n, i);
    }
    assert forall|i: int| 0 <= i < n implies -1real <= #[trigger] plane_q(m, rgba, n)[i]
        <= 1real by {
        channel_values_are_shown(m, rgba, n, i);
    }
    assert forall|i: int| 0 <= i < n implies 0real <= #[trigger] plane_a(m, rgba, n)[i]
        <= 1real by {
        channel_values_are_shown(m, rgba, n, i);
    }
}

/// The average of a channel whose samples are not negative is not negative either, nor is it
/// for a channel without samples.
proof fn lemma_first_coefficient(m: Model<real>, samples: Seq<real>, w: int, h: int)
    requires
        is_exact(m),
        0 <= w <= MAX_SIDE,
        0 <= h <= MAX_SIDE,
        samples.len() == w * h,
        forall|i: int| 0 <= i < samples.len() ==> 0real <= #[trigger] samples[i] <= 1real,
    ensures
        0real <= coefficient(m, samples, w, h, 0, 0) <= 1real,
{
    assert(0 <= w * h <= 10000) by (nonlinear_arith)
        requires
            0 <= w <= 100,
            0 <= h <= 100,
    ;
    if w == 0 || h == 0 {
        let sums = column_sums(m, samples, w, h, 0);
        if h == 0 {
            assert forall|x: int| 0 <= x < w implies size(#[trigger] sums[x]) <= 0real by {}
        }
        let cos = cosines(m, w, 0);
        assert forall|x: int| 0 <= x < w implies size(#[trigger] cos[x]) <= 1real by {
            lemma_cosine_bound(m, w, 0, x);
        }
        lemma_dot_bound(m, sums, cos, w, 0real);
        let share = m.ratio(1, w * h);
        assert(w as real * 0real == 0real) by (nonlinear_arith);
        assert(0real * share == 0real) by (nonlinear_arith);
    } else {
        assert(w * h > 0) by (nonlinear_arith)
            requires
                0 < w,
                0 < h,
        ;
        first_coefficient_is_mean(m, samples, w, h);
        lemma_mean_bounds(samples, 0real, 1real);
    }
}

/// A channel whose numbers lie between zero and one is recorded in nibbles.
proof fn lemma_nibbles_fit(m: Model<real>, ac: Seq<real>)
    requires
        is_exact(m),
        forall|i: int| 0 <= i < ac.len() ==> 0real <= #[trigger] ac[i] <= 1real,
    ensures
        forall|i: int| 0 <= i < ac.len() ==> #[trigger] quantized_ac(m, ac)[i] < 16,
{
    assert forall|i: int| 0 <= i < ac.len() implies #[trigger] quantized_ac(m, ac)[i] < 16 by {
        lemma_quantized(m, ac[i], 15);
    }
}

/// In exact arithmetic everything that the hash of an image records fits into its bits.
pub proof fn recorded_numbers_fit(m: Model<real>, w: int, h: int, rgba: Seq<u8>)
    requires
        is_exact(m),
        0 <= w <= MAX_SIDE,
        0 <= h <= MAX_SIDE,
    ensures
        parts_fit(
            encoded_header(m, w, h, rgba),
            encoded_alpha(m, w, h, rgba),
            encoded_nibbles(m, w, h, rgba),
        ),
{
    let n = w * h;
    assert(0 <= n <= 10000) by (nonlinear_arith)
        requires
            n == w * h,
            0 <= w <= 100,
            0 <= h <= 100,
    ;
    let alpha = has_alpha(rgba, n);
    let (nx, ny) = used_luma(w, h, alpha);
    let l = plane_l(m, rgba, n);
    let p = plane_p(m, rgba, n);
    let q = plane_q(m, rgba, n);
    let a = plane_a(m, rgba, n);
    lemma_plane_bounds(m, rgba, n);
    lemma_first_coefficient(m, l, w, h);
    lemma_channel_bounds(m, l, w, h, nx, ny);
    lemma_channel_bounds(m, p, w, h, 3, 3);
    lemma_channel_bounds(m, q, w, h, 3, 3);
    lemma_quantized(m, coefficient(m, l, w, h, 0, 0), 63);
    lemma_quantized_signed(m, coefficient(m, p, w, h, 0, 0));
    lemma_quantized_signed(m, coefficient(m, q, w, h, 0, 0));
    lemma_quantized(m, channel_scale(m, l, w, h, nx, ny), 31);
    lemma_quantized(m, channel_scale(m, p, w, h, 3, 3), 63);
    lemma_quantized(m, channel_scale(m, q, w, h, 3, 3), 63);
    lemma_nibbles_fit(m, channel_ac(m, l, w, h, nx, ny));
    lemma_nibbles_fit(m, channel_ac(m, p, w, h, 3, 3));
    lemma_nibbles_fit(m, channel_ac(m, q, w, h, 3, 3));
    lemma_luma_extent(luma_limit(alpha), w, max_of(w, h));
    lemma_luma_extent(luma_limit(alpha), h, max_of(w, h));
    if alpha {
        lemma_first_coefficient(m, a, w, h);
        lemma_channel_bounds(m, a, w, h, 5, 5);
        lemma_quantized(m, coefficient(m, a, w, h, 0, 0), 15);
        lemma_quantized(m, channel_scale(m, a, w, h, 5, 5), 15);
        lemma_nibbles_fit(m, channel_ac(m, a, w, h, 5, 5));
    }
}

/// In exact arithmetic the hash of every image that is not empty on both sides can be decoded, to
/// an image neither side of which is shorter than five, and is read back as it was written. No
/// part of it that leaves bytes at its end out can be decoded.
pub proof fn every_image_reads_back(m: Model<real>, w: int, h: int, rgba: Seq<u8>)
    requires
        is_exact(m),
        0 <= w <= MAX_SIDE,
        0 <= h <= MAX_SIDE,
        w > 0 || h > 0,
    ensures
        is_complete(thumb_hash(m, w, h, rgba)),
        header_of(thumb_hash(m, w, h, rgba)) == encoded_header(m, w, h, rgba),
        alpha_of(thumb_hash(m, w, h, rgba)) == encoded_alpha(m, w, h, rgba),
        nibbles_of(thumb_hash(m, w, h, rgba)) == encoded_nibbles(m, w, h, rgba),
        header_of(thumb_hash(m, w, h, rgba)).aspect() == luma_size(w, h, has_alpha(rgba, w * h)),
        5 <= size_of_hash(thumb_hash(m, w, h, rgba)).0 <= DECODED_SIDE,
        5 <= size_of_hash(thumb_hash(m, w, h, rgba)).1 <= DECODED_SIDE,
        forall|k: int|
            0 <= k < thumb_hash(m, w, h, rgba).len() ==> !is_complete(
                #[trigger] thumb_hash(m, w, h, rgba).take(k),
            ),
{
    recorded_numbers_fit(m, w, h, rgba);
    encoded_hash_reads_back(m, w, h, rgba);
    encoded_hash_decodes(m, w, h, rgba);
    lemma_luma_extent(luma_limit(has_alpha(rgba, w * h)), w, max_of(w, h));
    lemma_luma_extent(luma_limit(has_alpha(rgba, w * h)), h, max_of(w, h));
    announced_components(w, h, encoded_header(m, w, h, rgba));
}

/// In exact arithmetic the text form of the hash of every image that is not empty on both sides
/// can be decoded, and to the same image as the hash itself.
pub proof fn every_text_decodes(m: Model<real>, w: int, h: int, rgba: Seq<u8>)
    requires
        is_exact(m),
        0 <= w <= MAX_SIDE,
        0 <= h <= MAX_SIDE,
        w > 0 || h > 0,
    ensures
        is_text(encoded(thumb_hash(m, w, h, rgba))),
        is_complete(decoded(encoded(thumb_hash(m, w, h, rgba)))),
        decoded_rgba(m, decoded(encoded(thumb_hash(m, w, h, rgba)))) == decoded_rgba(
            m,
            thumb_hash(m, w, h, rgba),
        ),
{
    recorded_numbers_fit(m, w, h, rgba);
    encoded_text_decodes(m, w, h, rgba);
}

} // verus!
