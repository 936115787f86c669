//! How close what is read from a hash comes to the image, in exact arithmetic.
use crate::arithmetic::Model;
use crate::color::{has_alpha, lemma_has_alpha, plane_a, plane_l, plane_p, plane_q};
use crate::decoder::{
    aspect_ratio, average_l, average_rgba, channel_of, chroma_scale, decoded_rgba, signed_average,
    size_of_hash,
};
use crate::encoder::{
    encoded_header, encoded_nibbles, quantized, quantized_ac, short_extent, thumb_hash, used_luma,
};
use crate::exact::{half, is_exact, lemma_sum_eq};
use crate::fidelity::{
    channel_values_are_shown, every_image_reads_back, first_coefficient_is_mean,
    lemma_channel_bounds, lemma_coefficient_bound, lemma_magnitude, lemma_magnitude_limit,
    lemma_mean_bounds, lemma_normalized, lemma_plane_bounds, lemma_quantized,
    lemma_quantized_signed, lemma_real_product, mean, size,
};
use crate::forward::{channel_ac, channel_scale, normalized, other_coefficients};
use crate::geometry::{
    lemma_luma_extent, lemma_small_triangles, lemma_triangle_first, luma_limit, luma_size, max_of,
    triangle, MAX_SIDE,
};
use crate::header::header_of;
use crate::image::{
    channel_means, lemma_mean_component, mean_alpha, mean_component, shown_a, shown_l, shown_p,
    shown_q,
};
use crate::inverse::{dequantized, dequantized_ac};
use crate::laws::{announced_components, aspect_is_close, opaque_hash_decodes_opaque};
use crate::parts::{alpha_count, alpha_of, chroma_count, has_averages, luma_count};
use vstd::prelude::*;

verus! {

/// In exact arithmetic the averages of the channels of an image are the channel values of its
/// average colour, and that of the alpha channel is the average of the alpha components.
proof fn lemma_plane_means(m: Model<real>, rgba: Seq<u8>, n: int)
    requires
        is_exact(m),
        0 < n <= 10000,
    ensures
        ({
            let r = mean_component(rgba, n, 0);
            let g = mean_component(rgba, n, 1);
            let b = mean_component(rgba, n, 2);
            &&& mean(plane_l(m, rgba, n)) == (r + g + b) / 3real
            &&& mean(plane_p(m, rgba, n)) == (r + g) / 2real - b
            &&& mean(plane_q(m, rgba, n)) == r - g
        }),
        mean(plane_a(m, rgba, n)) == mean_alpha(rgba, n),
{
    let l = plane_l(m, rgba, n);
    let p = plane_p(m, rgba, n);
    let q = plane_q(m, rgba, n);
    let a = plane_a(m, rgba, n);
    assert forall|i: int| 0 <= i < n implies #[trigger] l[i] == shown_l(rgba, n, i) by {
        channel_values_are_shown(m, rgba, n, i);
    }
    assert forall|i: int| 0 <= i < n implies #[trigger] p[i] == shown_p(rgba, n, i) by {
        channel_values_are_shown(m, rgba, n, i);
    }
    assert forall|i: int| 0 <= i < n implies #[trigger] q[i] == shown_q(rgba, n, i) by {
        channel_values_are_shown(m, rgba, n, i);
    }
    assert forall|i: int| 0 <= i < n implies #[trigger] a[i] == shown_a(rgba, i) by {
        channel_values_are_shown(m, rgba, n, i);
    }
    lemma_sum_eq(|i: int| l[i], |i: int| shown_l(rgba, n, i), n);
    lemma_sum_eq(|i: int| p[i], |i: int| shown_p(rgba, n, i), n);
    lemma_sum_eq(|i: int| q[i], |i: int| shown_q(rgba, n, i), n);
    lemma_sum_eq(|i: int| a[i], |i: int| shown_a(rgba, i), n);
    channel_means(rgba, n);
}

/// A number between minus one and one is recorded as the integer closest to it on its scale.
proof fn lemma_signed_level(m: Model<real>, v: real)
    requires
        is_exact(m),
        -1real <= v <= 1real,
    ensures
        size(
            m.round(63real / 2real + 63real / 2real * v) as real - 63real / 2real * (1real + v),
        ) <= half(),
{
    let x = 63real / 2real + 63real / 2real * v;
    assert(x == 63real / 2real * (1real + v));
    assert(0real <= x <= 63real);
}

/// In exact arithmetic the averages that the hash of an image records are the integers closest to
/// those of the image on their scales.
#[verifier::spinoff_prover]
pub proof fn recorded_averages(m: Model<real>, w: int, h: int, rgba: Seq<u8>)
    requires
        is_exact(m),
        0 < w <= MAX_SIDE,
        0 < h <= MAX_SIDE,
    ensures
        ({
            let hash = thumb_hash(m, w, h, rgba);
            let header = header_of(hash);
            let r = mean_component(rgba, w * h, 0);
            let g = mean_component(rgba, w * h, 1);
            let b = mean_component(rgba, w * h, 2);
            let t = half();
            &&& size(header.l_dc as real - 63real * ((r + g + b) / 3real)) <= t
            &&& size(header.p_dc as real - 63real / 2real * (1real + ((r + g) / 2real - b))) <= t
            &&& size(header.q_dc as real - 63real / 2real * (1real + (r - g))) <= t
            &&& alpha_of(hash) matches Some((dc, _)) ==> size(
                dc as real - 15real * mean_alpha(rgba, w * h),
            ) <= t
        }),
{
    let n = w * h;
    assert(0 < n <= 10000) by (nonlinear_arith)
        requires
            n == w * h,
            0 < w <= 100,
            0 < h <= 100,
    ;
    let l = plane_l(m, rgba, n);
    let p = plane_p(m, rgba, n);
    let q = plane_q(m, rgba, n);
    let a = plane_a(m, rgba, n);
    every_image_reads_back(m, w, h, rgba);
    lemma_plane_bounds(m, rgba, n);
    lemma_plane_means(m, rgba, n);
    first_coefficient_is_mean(m, l, w, h);
    first_coefficient_is_mean(m, p, w, h);
    first_coefficient_is_mean(m, q, w, h);
    first_coefficient_is_mean(m, a, w, h);
    lemma_mean_bounds(l, 0real, 1real);
    lemma_mean_bounds(p, -1real, 1real);
    lemma_mean_bounds(q, -1real, 1real);
    lemma_mean_bounds(a, 0real, 1real);
    let header = encoded_header(m, w, h, rgba);
    let half_range = 63real / 2real;
    assert(m.ratio(63, 2) == half_range);
    assert(header.l_dc == m.round(63real * mean(l)));
    assert(header.p_dc == m.round(half_range + half_range * mean(p)));
    assert(header.q_dc == m.round(half_range + half_range * mean(q)));
    assert(size(header.l_dc as real - 63real * mean(l)) <= half());
    lemma_signed_level(m, mean(p));
    lemma_signed_level(m, mean(q));
    if has_alpha(rgba, n) {
        lemma_quantized(m, mean(a), 15);
        assert(quantized(m, mean(a), 15) == m.round(15real * mean(a)));
        assert(size(m.round(15real * mean(a)) as real - 15real * mean(a)) <= half());
    }
}

/// In exact arithmetic the average colour that is read from the hash of an image is that of the
/// image, weighted by alpha, up to `4 / 189` in red and green and up to `1 / 54` in blue; its
/// alpha value is that of the image up to `1 / 30`, and is exact for an opaque image.
pub proof fn average_colour_is_close(m: Model<real>, w: int, h: int, rgba: Seq<u8>)
    requires
        is_exact(m),
        0 < w <= MAX_SIDE,
        0 < h <= MAX_SIDE,
    ensures
        ({
            let color = average_rgba(m, thumb_hash(m, w, h, rgba));
            &&& size(color.0 - mean_component(rgba, w * h, 0)) <= 4real / 189real
            &&& size(color.1 - mean_component(rgba, w * h, 1)) <= 4real / 189real
            &&& size(color.2 - mean_component(rgba, w * h, 2)) <= 1real / 54real
            &&& size(color.3 - mean_alpha(rgba, w * h)) <= 1real / 30real
            &&& !has_alpha(rgba, w * h) ==> color.3 == 1real && mean_alpha(rgba, w * h) == 1real
        }),
{
    let n = w * h;
    assert(0 < n <= 10000) by (nonlinear_arith)
        requires
            n == w * h,
            0 < w <= 100,
            0 < h <= 100,
    ;
    let l = plane_l(m, rgba, n);
    let p = plane_p(m, rgba, n);
    let q = plane_q(m, rgba, n);
    let header = encoded_header(m, w, h, rgba);
    every_image_reads_back(m, w, h, rgba);
    lemma_plane_bounds(m, rgba, n);
    first_coefficient_is_mean(m, l, w, h);
    first_coefficient_is_mean(m, p, w, h);
    first_coefficient_is_mean(m, q, w, h);
    lemma_mean_bounds(l, 0real, 1real);
    lemma_mean_bounds(p, -1real, 1real);
    lemma_mean_bounds(q, -1real, 1real);
    lemma_quantized(m, mean(l), 63);
    lemma_quantized_signed(m, mean(p));
    lemma_quantized_signed(m, mean(q));
    assert(m.ratio(63, 2) == 63real / 2real);
    assert(m.ratio(2, 3) == 2real / 3real);
    assert(size(average_l(m, header) - mean(l)) <= 1real / 126real);
    assert(size(signed_average(m, header.p_dc as int) - mean(p)) <= 1real / 63real);
    assert(size(signed_average(m, header.q_dc as int) - mean(q)) <= 1real / 63real);
    lemma_plane_means(m, rgba, n);
    lemma_mean_component(rgba, n, 0);
    lemma_mean_component(rgba, n, 1);
    lemma_mean_component(rgba, n, 2);
    if has_alpha(rgba, n) {
        let a = plane_a(m, rgba, n);
        first_coefficient_is_mean(m, a, w, h);
        lemma_mean_bounds(a, 0real, 1real);
        lemma_quantized(m, mean(a), 15);
    } else {
        lemma_has_alpha(rgba, n);
        let d = n as real;
        assert(255real * d / (255real * d) == 1real) by (nonlinear_arith)
            requires
                d >= 1real,
        ;
    }
}

/// In exact arithmetic the average colour that is read from a hash has components between zero
/// and one.
pub proof fn average_colour_is_in_range(m: Model<real>, hash: Seq<u8>)
    requires
        is_exact(m),
        has_averages(hash),
    ensures
        0real <= average_rgba(m, hash).0 <= 1real,
        0real <= average_rgba(m, hash).1 <= 1real,
        0real <= average_rgba(m, hash).2 <= 1real,
        0real <= average_rgba(m, hash).3 <= 1real,
{
    if let Some((dc, _)) = alpha_of(hash) {
        assert(m.ratio(dc as int, 15) == dc as real / 15real);
    }
}

/// In exact arithmetic the aspect ratio that is read from the hash of an image is the quotient of
/// the numbers of components along its sides. It is at least one where the image is at least as
/// wide as it is high, and at most one where it is at least as high as it is wide. The quotient
/// of its shorter and its longer side is that of the image up to one component of the longer
/// side, and up to half of one unless that would leave none for the shorter side.
pub proof fn aspect_ratio_is_close(m: Model<real>, w: int, h: int, rgba: Seq<u8>)
    requires
        is_exact(m),
        0 < w <= MAX_SIDE,
        0 < h <= MAX_SIDE,
    ensures
        ({
            let r = aspect_ratio(m, thumb_hash(m, w, h, rgba));
            let alpha = has_alpha(rgba, w * h);
            let limit = luma_limit(alpha) as real;
            let components = short_extent(w, h, alpha) as real;
            &&& 1real <= components <= limit
            &&& w > h ==> r == limit / components
            &&& w <= h ==> r == components / limit
            &&& w >= h ==> r >= 1real
            &&& w <= h ==> r <= 1real
            &&& w >= h ==> size(1real / r - h as real / (w as real)) <= 1real / limit
            &&& w <= h ==> size(r - w as real / (h as real)) <= 1real / limit
            &&& w >= h && 2real * limit * h as real >= w as real ==> size(
                1real / r - h as real / (w as real),
            ) <= half() / limit
            &&& w <= h && 2real * limit * w as real >= h as real ==> size(
                r - w as real / (h as real),
            ) <= half() / limit
        }),
{
    let alpha = has_alpha(rgba, w * h);
    let limit = luma_limit(alpha);
    let components = short_extent(w, h, alpha);
    let long = max_of(w, h);
    let short = if w < h {
        w
    } else {
        h
    };
    every_image_reads_back(m, w, h, rgba);
    aspect_is_close(w, h, alpha);
    lemma_luma_extent(limit, w, long);
    lemma_luma_extent(limit, h, long);
    lemma_aspect_error(limit, components, short, long);
    let sides = luma_size(w, h, alpha);
    assert(aspect_ratio(m, thumb_hash(m, w, h, rgba)) == sides.0 as real / (sides.1 as real));
}

/// The quotients of two numbers of components are as close to those of two sides as the numbers
/// are in proportion.
pub proof fn lemma_aspect_error(limit: int, components: int, short: int, long: int)
    requires
        1 <= components <= limit,
        1 <= short <= long,
        -long <= 2 * (limit * short - components * long) < long || (2 * (limit * short) < long
            && components == 1),
    ensures
        ({
            let l = limit as real;
            let c = components as real;
            let s = short as real;
            let t = long as real;
            &&& 1real / (l / c) == c / l
            &&& l / c >= 1real >= c / l
            &&& size(c / l - s / t) <= 1real / l
            &&& 2real * l * s >= t ==> size(c / l - s / t) <= half() / l
            &&& limit <= 7 && long <= MAX_SIDE ==> size(c / l - s / t) <= 1real / l - 1real
                / 100real
        }),
{
    let l = limit as real;
    let c = components as real;
    let s = short as real;
    let t = long as real;
    lemma_real_product(limit, short);
    lemma_real_product(components, long);
    assert(2real * l * s == 2real * (l * s)) by (nonlinear_arith);
    let d = c * t - l * s;
    assert(size(d) <= t);
    assert(c / l - s / t == d / (l * t)) by (nonlinear_arith)
        requires
            1real <= l,
            1real <= t,
            d == c * t - l * s,
    ;
    assert(size(d / (l * t)) <= 1real / l) by (nonlinear_arith)
        requires
            1real <= l,
            1real <= t,
            size(d) <= t,
    ;
    assert(-t <= 2real * (l * s - c * t) <= t || (2real * (l * s) < t && c == 1real));
    assert(c * t >= t && (c == 1real ==> c * t == t)) by (nonlinear_arith)
        requires
            1real <= c,
            1real <= t,
    ;
    if 2real * l * s >= t {
        assert(half() * t == t / 2real);
        assert(size(d) <= half() * t);
        assert(size(d / (l * t)) <= half() / l) by (nonlinear_arith)
            requires
                1real <= l,
                1real <= t,
                half() == 1real / 2real,
                size(d) <= half() * t,
        ;
        assert(l <= 7real ==> half() / l <= 1real / l - 1real / 100real) by (nonlinear_arith)
            requires
                1real <= l,
                half() == 1real / 2real,
        ;
    } else {
        assert(l * s >= l) by (nonlinear_arith)
            requires
                1real <= l,
                1real <= s,
        ;
        assert(t <= 100real ==> size(d / (l * t)) <= 1real / l - 1real / 100real)
            by (nonlinear_arith)
            requires
                1real <= l,
                1real <= t,
                0real <= d <= t - l,
        {
            if t <= 100real {
                assert(d / (l * t) <= (t - l) / (l * t));
                assert((t - l) / (l * t) == 1real / l - 1real / t);
                assert(1real / t >= 1real / 100real);
                assert(0real <= d / (l * t));
            }
        }
    }
    assert(1real / (l / c) == c / l && l / c >= 1real && c / l <= 1real) by (nonlinear_arith)
        requires
            1real <= c <= l,
    ;
}

/// In exact arithmetic the aspect ratios of two images, equally opaque or transparent, of which
/// one is as wide as the other is high and as high as the other is wide, are inverse.
pub proof fn exchanged_sides_invert_aspect_ratio(
    m: Model<real>,
    w: int,
    h: int,
    rgba: Seq<u8>,
    other: Seq<u8>,
)
    requires
        is_exact(m),
        0 < w <= MAX_SIDE,
        0 < h <= MAX_SIDE,
        has_alpha(rgba, w * h) == has_alpha(other, h * w),
    ensures
        aspect_ratio(m, thumb_hash(m, w, h, rgba)) * aspect_ratio(m, thumb_hash(m, h, w, other))
            == 1real,
{
    let alpha = has_alpha(rgba, w * h);
    every_image_reads_back(m, w, h, rgba);
    every_image_reads_back(m, h, w, other);
    lemma_luma_extent(luma_limit(alpha), w, max_of(w, h));
    lemma_luma_extent(luma_limit(alpha), h, max_of(w, h));
    let x = luma_size(w, h, alpha).0 as real;
    let y = luma_size(w, h, alpha).1 as real;
    assert(x / y * (y / x) == 1real) by (nonlinear_arith)
        requires
            1real <= x,
            1real <= y,
    ;
}

/// In exact arithmetic an opaque image is decoded to an opaque image.
pub proof fn opaque_image_decodes_opaque(m: Model<real>, w: int, h: int, rgba: Seq<u8>, i: int)
    requires
        is_exact(m),
        0 <= w <= MAX_SIDE,
        0 <= h <= MAX_SIDE,
        w > 0 || h > 0,
        !has_alpha(rgba, w * h),
        ({
            let (ow, oh) = size_of_hash(thumb_hash(m, w, h, rgba));
            0 <= i < ow * oh
        }),
    ensures
        decoded_rgba(m, thumb_hash(m, w, h, rgba))[4 * i + 3] == 255,
{
    every_image_reads_back(m, w, h, rgba);
    opaque_hash_decodes_opaque(m, thumb_hash(m, w, h, rgba), i);
    assert(m.times(1real, 255real) == 255real);
    assert(m.truncate(255real) == 255);
}

/// In exact arithmetic a coefficient that is recorded in a nibble, as a part of a scale that is
/// recorded on `steps` steps, is read back up to half a step and a fifteenth.
proof fn lemma_coefficient_error(m: Model<real>, v: real, scale: real, steps: int)
    requires
        is_exact(m),
        0real <= scale <= 1real,
        size(v) <= scale,
        0 < steps <= 63,
    ensures
        ({
            let bits = quantized_ac(m, normalized(m, seq![v], scale))[0];
            let read = m.ratio(quantized(m, scale, steps) as int, steps);
            size(dequantized(m, bits, read) - v) <= half() / (steps as real) + 1real / 15real
        }),
{
    let u = normalized(m, seq![v], scale)[0];
    let bits = quantized_ac(m, normalized(m, seq![v], scale))[0];
    let level = quantized(m, scale, steps);
    let s = steps as real;
    let read = level as real / s;
    lemma_quantized(m, scale, steps);
    assert(m.ratio(level as int, steps) == read);
    assert(m.ratio(15, 2) == 15real / 2real);
    let x = bits as real / (15real / 2real) - 1real;
    assert(dequantized(m, bits, read) == x * read);
    assert(size(read - scale) <= half() / s) by (nonlinear_arith)
        requires
            read == level as real / s,
            size(level as real - s * scale) <= half(),
            half() == 1real / 2real,
            s >= 1real,
    ;
    if scale > 0real {
        lemma_normalized(m, v, scale);
        lemma_quantized(m, u, 15);
        let y = 2real * u - 1real;
        let k = quantized(m, u, 15);
        assert(u == m.plus(m.ratio(1, 2), m.times(m.over(m.ratio(1, 2), scale), v)));
        assert(bits == k);
        assert(x == 2real / 15real * k as real - 1real);
        assert(size(x - y) <= 1real / 15real) by (nonlinear_arith)
            requires
                x == 2real / 15real * k as real - 1real,
                y == 2real * u - 1real,
                size(k as real - 15real * u) <= half(),
                half() == 1real / 2real,
        ;
        let e = half() / s;
        assert(size(x * read - v) <= e + 1real / 15real) by (nonlinear_arith)
            requires
                v == y * scale,
                -1real <= x <= 1real,
                size(x - y) <= 1real / 15real,
                size(read - scale) <= e,
                0real < scale <= 1real,
        {
            assert(x * read - v == x * (read - scale) + (x - y) * scale);
            assert(size(x * (read - scale)) <= e);
            assert(size((x - y) * scale) <= 1real / 15real);
        }
    } else {
        assert(s * scale == 0real) by (nonlinear_arith)
            requires
                scale == 0real,
        ;
        assert(level == 0);
        assert(x * read == 0real) by (nonlinear_arith)
            requires
                read == 0real / s,
                s >= 1real,
        ;
        assert(half() / s >= 0real) by (nonlinear_arith)
            requires
                half() == 1real / 2real,
                s >= 1real,
        ;
    }
}

/// Whether the numbers of `read` are those of `values`, times `factor`, up to `error`.
pub open spec fn are_close(read: Seq<real>, values: Seq<real>, factor: real, error: real) -> bool {
    &&& read.len() == values.len()
    &&& forall|j: int|
        0 <= j < read.len() ==> size(#[trigger] read[j] - factor * values[j]) <= error
}

/// The coefficients of a channel are read back up to half a step of its scale and a fifteenth.
proof fn lemma_channel_error(
    m: Model<real>,
    samples: Seq<real>,
    w: int,
    h: int,
    nx: int,
    ny: int,
    steps: int,
)
    requires
        is_exact(m),
        0 <= w <= MAX_SIDE,
        0 <= h <= MAX_SIDE,
        samples.len() == w * h,
        forall|i: int| 0 <= i < samples.len() ==> size(#[trigger] samples[i]) <= 1real,
        0 < steps <= 63,
    ensures
        are_close(
            dequantized_ac(
                m,
                quantized_ac(m, channel_ac(m, samples, w, h, nx, ny)),
                m.ratio(
                    quantized(m, channel_scale(m, samples, w, h, nx, ny), steps) as int,
                    steps,
                ),
            ),
            other_coefficients(m, samples, w, h, nx, ny),
            1real,
            half() / (steps as real) + 1real / 15real,
        ),
{
    let values = other_coefficients(m, samples, w, h, nx, ny);
    let scale = channel_scale(m, samples, w, h, nx, ny);
    let list = triangle(nx, ny).drop_first();
    assert forall|i: int| 0 <= i < values.len() implies size(#[trigger] values[i]) <= 1real by {
        lemma_coefficient_bound(m, samples, w, h, list[i].0 as int, list[i].1 as int);
    }
    lemma_magnitude(m, values);
    lemma_magnitude_limit(m, values, 1real);
    let bits = quantized_ac(m, channel_ac(m, samples, w, h, nx, ny));
    let read = m.ratio(quantized(m, scale, steps) as int, steps);
    assert forall|j: int| 0 <= j < bits.len() implies size(
        #[trigger] dequantized_ac(m, bits, read)[j] - 1real * values[j],
    ) <= half() / (steps as real) + 1real / 15real by {
        lemma_coefficient_error(m, values[j], scale, steps);
        assert(normalized(m, seq![values[j]], scale)[0] == normalized(m, values, scale)[j]);
    }
}

/// In exact arithmetic the coefficients that are read from the hash of an image are those of the
/// image: up to `77 / 930` for the luminance, up to `1 / 10` for the alpha channel and, as the
/// chroma channels are read a quarter stronger than they are, up to `47 / 504` from five
/// quarters of theirs.
pub proof fn coefficients_are_close(m: Model<real>, w: int, h: int, rgba: Seq<u8>)
    requires
        is_exact(m),
        0 <= w <= MAX_SIDE,
        0 <= h <= MAX_SIDE,
        w > 0 || h > 0,
    ensures
        ({
            let n = w * h;
            let hash = thumb_hash(m, w, h, rgba);
            let header = header_of(hash);
            let (nx, ny) = header.components();
            let luma = luma_count(header);
            let chroma = chroma_count();
            &&& are_close(
                channel_of(m, hash, 0, luma, m.ratio(header.l_scale as int, 31)),
                other_coefficients(m, plane_l(m, rgba, n), w, h, nx, ny),
                1real,
                77real / 930real,
            )
            &&& are_close(
                channel_of(m, hash, luma, chroma, chroma_scale(m, header.p_scale as int)),
                other_coefficients(m, plane_p(m, rgba, n), w, h, 3, 3),
                5real / 4real,
                47real / 504real,
            )
            &&& are_close(
                channel_of(m, hash, luma + chroma, chroma, chroma_scale(m, header.q_scale as int)),
                other_coefficients(m, plane_q(m, rgba, n), w, h, 3, 3),
                5real / 4real,
                47real / 504real,
            )
            &&& alpha_of(hash) matches Some((dc, scale)) ==> are_close(
                channel_of(
                    m,
                    hash,
                    luma + 2 * chroma,
                    alpha_count(),
                    m.ratio(scale as int, 15),
                ),
                other_coefficients(m, plane_a(m, rgba, n), w, h, 5, 5),
                1real,
                1real / 10real,
            )
        }),
{
    let n = w * h;
    assert(0 <= n <= 10000) by (nonlinear_arith)
        requires
            n == w * h,
            0 <= w <= 100,
            0 <= h <= 100,
    ;
    let alpha = has_alpha(rgba, n);
    let (nx, ny) = used_luma(w, h, alpha);
    let hash = thumb_hash(m, w, h, rgba);
    let header = encoded_header(m, w, h, rgba);
    let l = plane_l(m, rgba, n);
    let p = plane_p(m, rgba, n);
    let q = plane_q(m, rgba, n);
    let a = plane_a(m, rgba, n);
    let luma = luma_count(header);
    let chroma = chroma_count();
    every_image_reads_back(m, w, h, rgba);
    lemma_plane_bounds(m, rgba, n);
    lemma_luma_extent(luma_limit(alpha), w, max_of(w, h));
    lemma_luma_extent(luma_limit(alpha), h, max_of(w, h));
    announced_components(w, h, header);
    lemma_triangle_first(nx, ny);
    lemma_small_triangles();
    lemma_channel_bounds(m, l, w, h, nx, ny);
    lemma_channel_bounds(m, p, w, h, 3, 3);
    lemma_channel_bounds(m, q, w, h, 3, 3);
    lemma_quantized(m, channel_scale(m, p, w, h, 3, 3), 63);
    lemma_quantized(m, channel_scale(m, q, w, h, 3, 3), 63);
    let nibbles = encoded_nibbles(m, w, h, rgba);
    let l_bits = quantized_ac(m, channel_ac(m, l, w, h, nx, ny));
    let p_bits = quantized_ac(m, channel_ac(m, p, w, h, 3, 3));
    let q_bits = quantized_ac(m, channel_ac(m, q, w, h, 3, 3));
    assert(nibbles.subrange(0, luma) =~= l_bits);
    assert(nibbles.subrange(luma, luma + chroma) =~= p_bits);
    assert(nibbles.subrange(luma + chroma, luma + chroma + chroma) =~= q_bits);
    lemma_channel_error(m, l, w, h, nx, ny, 31);
    lemma_channel_error(m, p, w, h, 3, 3, 63);
    lemma_channel_error(m, q, w, h, 3, 3, 63);
    lemma_stronger(m, p_bits, header.p_scale as int, other_coefficients(m, p, w, h, 3, 3));
    lemma_stronger(m, q_bits, header.q_scale as int, other_coefficients(m, q, w, h, 3, 3));
    if alpha {
        let a_bits = quantized_ac(m, channel_ac(m, a, w, h, 5, 5));
        lemma_channel_bounds(m, a, w, h, 5, 5);
        lemma_quantized(m, channel_scale(m, a, w, h, 5, 5), 15);
        assert(nibbles.subrange(luma + 2 * chroma, luma + 2 * chroma + alpha_count()) =~= a_bits);
        lemma_channel_error(m, a, w, h, 5, 5, 15);
    }
}

/// With a chroma scale coefficients are read a quarter stronger than with the scale that was
/// recorded.
proof fn lemma_stronger(m: Model<real>, bits: Seq<u8>, level: int, values: Seq<real>)
    requires
        is_exact(m),
        0 <= level <= 63,
        are_close(
            dequantized_ac(m, bits, m.ratio(level, 63)),
            values,
            1real,
            half() / 63real + 1real / 15real,
        ),
    ensures
        are_close(
            dequantized_ac(m, bits, chroma_scale(m, level)),
            values,
            5real / 4real,
            47real / 504real,
        ),
{
    let read = dequantized_ac(m, bits, m.ratio(level, 63));
    let stronger = dequantized_ac(m, bits, chroma_scale(m, level));
    assert(m.ratio(5, 4) == 5real / 4real);
    assert forall|j: int| 0 <= j < stronger.len() implies size(
        #[trigger] stronger[j] - 5real / 4real * values[j],
    ) <= 47real / 504real by {
        assert(size(read[j] - 1real * values[j]) <= half() / 63real + 1real / 15real);
        let x = m.minus(m.over(m.from_int(bits[j] as int), m.ratio(15, 2)), m.from_int(1));
        let s = m.ratio(level, 63);
        assert(x * (s * (5real / 4real)) == x * s * (5real / 4real)) by (nonlinear_arith);
    }
}

} // verus!
