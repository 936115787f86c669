//! Images of one colour, in exact arithmetic.
use crate::accuracy::{
    average_colour_is_close, average_colour_is_in_range, opaque_image_decodes_opaque,
};
use crate::arithmetic::Model;
use crate::color::{
    alpha_sum, clamped, component, has_alpha, pixel_lpqa, plane_a, plane_l, plane_p, plane_q,
    weighted_sum,
};
use crate::cosine::{cosine, cosines, frequency};
use crate::decoder::{
    average_a, average_l, average_rgba, channel_of, chroma_scale, components_of, decoded_pixel,
    decoded_rgba, signed_average, size_of_hash,
};
use crate::encoder::{quantized, thumb_hash, used_luma};
use crate::exact::{
    contribution, falling_rule, half, is_exact, lemma_sum_eq, lemma_sum_zero, product_rule,
    recurrence_gives_cosines, separable_inverse_transform, sum,
};
use crate::fidelity::{
    every_image_reads_back, lemma_magnitude, lemma_magnitude_limit, lemma_quantized,
    lemma_real_product, size,
};
use crate::forward::{channel_scale, coefficient, column, column_sums, dot, other_coefficients};
use crate::geometry::{
    lemma_luma_extent, lemma_rows_bounds, lemma_small_triangles, lemma_triangle_first, luma_limit,
    max_of, triangle, MAX_SIDE,
};
use crate::header::header_of;
use crate::image::{mean_alpha, mean_component};
use crate::inverse::sample;
use crate::laws::coefficients_are_in_order;
use crate::parts::{alpha_count, alpha_of, chroma_count, is_complete, luma_count, nibbles_of};
use crate::saturate::byte_of;
use vstd::prelude::*;

verus! {

/// Cosines are even.
proof fn lemma_even(m: Model<real>, x: real)
    requires
        is_exact(m),
    ensures
        m.cos(-x) == m.cos(x),
{
    let one = m.cos(0real);
    let t = m.cos(x);
    assert(product_rule(m, 0real, x));
    assert(0real + x == x && 0real - x == -x);
    assert(2real * one * t == 2real * t) by (nonlinear_arith)
        requires
            one == 1real,
    ;
}

/// Half a turn changes the sign of a cosine.
proof fn lemma_half_turn(m: Model<real>, x: real)
    requires
        is_exact(m),
    ensures
        m.cos(m.pi + x) == -m.cos(x),
{
    let pi = m.pi;
    let t = m.cos(x);
    let u = m.cos(pi + x);
    let v = m.cos(pi - x);
    assert(product_rule(m, pi, x));
    assert(product_rule(m, pi, pi));
    assert(product_rule(m, x, x));
    assert(product_rule(m, pi + x, pi - x));
    assert(pi - pi == 0real && x - x == 0real);
    assert((pi + x) + (pi - x) == pi + pi);
    assert((pi + x) - (pi - x) == x + x);
    assert(u == -t) by (nonlinear_arith)
        requires
            2real * (-1real) * t == u + v,
            2real * u * v == 1real + (2real * t * t - 1real),
    {
        assert(v == -2real * t - u);
        assert((u + t) * (u + t) == u * u + 2real * u * t + t * t);
        assert(u * v == -2real * t * u - u * u);
        assert((u + t) * (u + t) == 0real);
    }
}

/// The sign of a cosine after `c` half turns.
spec fn sign(c: int) -> real {
    if c % 2 == 0 {
        1real
    } else {
        -1real
    }
}

/// `c` half turns change the sign of a cosine `c` times.
proof fn lemma_half_turns(m: Model<real>, c: int, x: real)
    requires
        is_exact(m),
        0 <= c,
    ensures
        m.cos(c as real * m.pi + x) == sign(c) * m.cos(x),
    decreases c,
{
    let pi = m.pi;
    if c > 0 {
        lemma_half_turns(m, c - 1, x);
        lemma_half_turn(m, (c - 1) as real * pi + x);
        assert((c - 1) as real == c as real - 1real);
        assert(pi + ((c as real - 1real) * pi + x) == c as real * pi + x) by (nonlinear_arith);
        let t = m.cos(x);
        assert(-(1real * t) == -1real * t && -(-1real * t) == 1real * t);
    } else {
        assert(0real * pi + x == x) by (nonlinear_arith);
    }
}

/// The sums of the cosines at the middles and at the beginnings of `k` steps, each times the
/// cosine of half a step.
proof fn lemma_step_sums(m: Model<real>, freq: real, k: int)
    requires
        is_exact(m),
        0 <= k,
    ensures
        ({
            let d = m.cos(freq * half());
            let middles = sum(|i: int| m.cos(freq * (i as real + half())), k);
            let starts = sum(|i: int| m.cos(freq * i as real), k);
            &&& 2real * d * middles == 2real * starts + m.cos(freq * k as real) - 1real
            &&& 2real * d * starts == 2real * middles + d - m.cos(freq * (k as real - half()))
        }),
    decreases k,
{
    let step = freq * half();
    let d = m.cos(step);
    let middle = |i: int| m.cos(freq * (i as real + half()));
    let start = |i: int| m.cos(freq * i as real);
    if k > 0 {
        lemma_step_sums(m, freq, k - 1);
        let r = (k - 1) as real;
        let a = freq * (r + half());
        let b = freq * r;
        assert(r == k as real - 1real);
        assert(a + step == freq * k as real) by (nonlinear_arith)
            requires
                a == freq * (r + half()),
                step == freq * half(),
                r == k as real - 1real,
                half() == 1real / 2real,
        ;
        assert(a - step == b && b + step == a && b - step == freq * (r - half()))
            by (nonlinear_arith)
            requires
                a == freq * (r + half()),
                b == freq * r,
                step == freq * half(),
        ;
        assert(k as real - half() == r + half());
        assert(product_rule(m, a, step));
        assert(product_rule(m, b, step));
        let ca = m.cos(a);
        let cb = m.cos(b);
        let middles = sum(middle, k - 1);
        let starts = sum(start, k - 1);
        assert(sum(middle, k) == middles + ca);
        assert(sum(start, k) == starts + cb);
        assert(2real * d * (middles + ca) == 2real * d * middles + 2real * ca * d)
            by (nonlinear_arith);
        assert(2real * d * (starts + cb) == 2real * d * starts + 2real * cb * d)
            by (nonlinear_arith);
    } else {
        assert(freq * 0real == 0real) by (nonlinear_arith);
        assert(freq * (0real - half()) == -step) by (nonlinear_arith)
            requires
                step == freq * half(),
        ;
        assert(2real * d * 0real == 0real) by (nonlinear_arith);
        lemma_even(m, step);
    }
}

/// Over all samples, the cosine with a frequency other than zero sums up to zero, unless there
/// are fewer than half as many samples as half turns.
pub proof fn lemma_cosines_cancel(m: Model<real>, len: int, c: int)
    requires
        is_exact(m),
        0 < len <= u32::MAX,
        0 < c < 2 * len,
        c <= u32::MAX,
    ensures
        sum(|i: int| cosine(m, len, c, i), len) == 0real,
{
    let freq = frequency(m, c, len);
    let pi = m.pi;
    let n = len as real;
    let turns = c as real;
    assert(freq == pi / n * turns);
    assert forall|i: int| 0 <= i < len implies #[trigger] cosine(m, len, c, i) == m.cos(
        freq * (i as real + half()),
    ) by {
        recurrence_gives_cosines(m, freq, i);
    }
    let middle = |i: int| m.cos(freq * (i as real + half()));
    lemma_sum_eq(|i: int| cosine(m, len, c, i), middle, len);
    lemma_step_sums(m, freq, len);
    let step = freq * half();
    let d = m.cos(step);
    let s = sign(c);
    assert(freq * n == turns * pi + 0real) by (nonlinear_arith)
        requires
            freq == pi / n * turns,
            n >= 1real,
    ;
    assert(freq * (n - half()) == turns * pi + (-step)) by (nonlinear_arith)
        requires
            freq * n == turns * pi + 0real,
            step == freq * half(),
    ;
    lemma_half_turns(m, c, 0real);
    lemma_half_turns(m, c, -step);
    lemma_even(m, step);
    assert(0real < step < pi) by (nonlinear_arith)
        requires
            freq == pi / n * turns,
            step == freq * half(),
            half() == 1real / 2real,
            n >= 1real,
            pi > 0real,
            0real < turns < 2real * n,
    {
        assert(pi / n > 0real);
        assert(step == pi / n * (turns / 2real));
        assert(pi / n * n == pi);
    }
    assert(falling_rule(m, 0real, step));
    assert(falling_rule(m, step, pi));
    let middles = sum(middle, len);
    let starts = sum(|i: int| m.cos(freq * i as real), len);
    assert(middles == 0real) by (nonlinear_arith)
        requires
            2real * d * middles == 2real * starts + s * 1real - 1real,
            2real * d * starts == 2real * middles + d - s * d,
            -1real < d < 1real,
    {
        assert(d * (2real * d * middles) == d * (2real * starts + s * 1real - 1real));
        assert(2real * d * d * middles == 2real * middles);
        assert((1real - d * d) * middles == 0real);
        assert(1real - d * d > 0real);
    }
}

/// A sum of products with a constant factor.
proof fn lemma_constant_dot(m: Model<real>, a: Seq<real>, b: Seq<real>, v: real, n: int)
    requires
        is_exact(m),
        0 <= n <= a.len(),
        forall|i: int| 0 <= i < n ==> #[trigger] a[i] == v,
    ensures
        dot(m, a, b, n) == v * sum(|i: int| b[i], n),
    decreases n,
{
    let f = |i: int| b[i];
    if n > 0 {
        lemma_constant_dot(m, a, b, v, n - 1);
        assert(sum(f, n) == sum(f, n - 1) + b[n - 1]);
        let rest = sum(f, n - 1);
        let last = b[n - 1];
        assert(v * (rest + last) == v * rest + v * last) by (nonlinear_arith);
    } else {
        assert(v * 0real == 0real) by (nonlinear_arith);
    }
}

/// Whether a channel of `w` by `h` samples, all of them `v`, has `nx` by `ny` components none of
/// which but the average is there: `v` is zero, or each side has at least half as many samples
/// as components.
pub open spec fn is_flat(v: real, w: int, h: int, nx: int, ny: int) -> bool {
    v == 0real || (nx <= 2 * w && ny <= 2 * h)
}

/// In exact arithmetic a channel whose samples are all the same has no coefficient but the
/// average. This does not hold of a side that is too short for its components: there the cosine
/// that completes two half turns over each sample is the same at all of them.
pub proof fn constant_channel_is_flat(
    m: Model<real>,
    samples: Seq<real>,
    v: real,
    w: int,
    h: int,
    nx: int,
    ny: int,
)
    requires
        is_exact(m),
        0 < w <= MAX_SIDE,
        0 < h <= MAX_SIDE,
        1 <= nx <= MAX_SIDE,
        1 <= ny <= MAX_SIDE,
        samples.len() == w * h,
        forall|i: int| 0 <= i < samples.len() ==> #[trigger] samples[i] == v,
        is_flat(v, w, h, nx, ny),
    ensures
        forall|j: int|
            0 <= j < other_coefficients(m, samples, w, h, nx, ny).len() ==> #[trigger]
            other_coefficients(m, samples, w, h, nx, ny)[j] == 0real,
        channel_scale(m, samples, w, h, nx, ny) == 0real,
{
    let all = triangle(nx, ny);
    let values = other_coefficients(m, samples, w, h, nx, ny);
    lemma_triangle_first(nx, ny);
    assert forall|j: int| 0 <= j < values.len() implies #[trigger] values[j] == 0real by {
        let (cx, cy) = all[j + 1];
        coefficients_are_in_order(nx, ny, 0, j + 1);
        lemma_rows_bounds(nx, ny, ny, j + 1);
        lemma_constant_coefficient(m, samples, v, w, h, cx as int, cy as int);
    }
    lemma_magnitude(m, values);
    lemma_magnitude_limit(m, values, 0real);
}

proof fn lemma_constant_coefficient(
    m: Model<real>,
    samples: Seq<real>,
    v: real,
    w: int,
    h: int,
    cx: int,
    cy: int,
)
    requires
        is_exact(m),
        0 < w <= MAX_SIDE,
        0 < h <= MAX_SIDE,
        samples.len() == w * h,
        forall|i: int| 0 <= i < samples.len() ==> #[trigger] samples[i] == v,
        0 <= cx <= MAX_SIDE,
        0 <= cy <= MAX_SIDE,
        cx > 0 || cy > 0,
        v == 0real || (cx < 2 * w && cy < 2 * h),
    ensures
        coefficient(m, samples, w, h, cx, cy) == 0real,
{
    let sums = column_sums(m, samples, w, h, cy);
    let vertical = cosines(m, h, cy);
    let horizontal = cosines(m, w, cx);
    let u = v * sum(|i: int| vertical[i], h);
    assert forall|x: int| 0 <= x < w implies #[trigger] sums[x] == u by {
        let col = column(samples, w, h, x);
        assert forall|y: int| 0 <= y < h implies #[trigger] col[y] == v by {
            assert(0 <= y * w + x < w * h) by (nonlinear_arith)
                requires
                    0 <= x < w,
                    0 <= y < h,
            ;
        }
        lemma_constant_dot(m, col, vertical, v, h);
    }
    lemma_constant_dot(m, sums, horizontal, u, w);
    let total = u * sum(|i: int| horizontal[i], w);
    assert(total == 0real) by {
        let sv = sum(|i: int| vertical[i], h);
        let sh = sum(|i: int| horizontal[i], w);
        if v != 0real && cy > 0 {
            lemma_cosines_cancel(m, h, cy);
            lemma_sum_eq(|i: int| vertical[i], |i: int| cosine(m, h, cy, i), h);
        } else if v != 0real {
            lemma_cosines_cancel(m, w, cx);
            lemma_sum_eq(|i: int| horizontal[i], |i: int| cosine(m, w, cx, i), w);
        }
        assert(v * sv * sh == 0real) by (nonlinear_arith)
            requires
                v == 0real || sv == 0real || sh == 0real,
        ;
    }
    let share = m.ratio(1, w * h);
    assert(0real * share == 0real) by (nonlinear_arith);
}

/// Whether all scales that `hash` records are zero.
pub open spec fn has_zero_scales(hash: Seq<u8>) -> bool {
    let header = header_of(hash);
    &&& header.l_scale == 0
    &&& header.p_scale == 0
    &&& header.q_scale == 0
    &&& alpha_of(hash) matches Some((dc, scale)) ==> scale == 0
}

/// The components of the average colour of `hash`.
pub open spec fn average_pixel<N>(m: Model<N>, hash: Seq<u8>) -> Seq<u8> {
    pixel_of(m, average_rgba(m, hash))
}

/// The whole part of `value` as a part of 255.
pub open spec fn whole_part<N>(m: Model<N>, value: N) -> u8 {
    byte_of(m.truncate(m.times(value, m.from_int(255))))
}

/// The components of a colour.
pub open spec fn pixel_of<N>(m: Model<N>, color: (N, N, N, N)) -> Seq<u8> {
    seq![
        whole_part(m, color.0),
        whole_part(m, color.1),
        whole_part(m, color.2),
        whole_part(m, color.3),
    ]
}

/// Whether the first `n` pixels have all the same components.
pub open spec fn is_solid(rgba: Seq<u8>, n: int) -> bool {
    forall|i: int, c: int|
        0 <= i < n && 0 <= c < 4 ==> #[trigger] component(rgba, i, c) == component(rgba, 0, c)
}

/// Whether each channel of an image of one colour consists of its average alone.
pub open spec fn has_flat_channels(m: Model<real>, w: int, h: int, rgba: Seq<u8>) -> bool {
    let n = w * h;
    let v = pixel_lpqa(m, rgba, n, 0);
    let (nx, ny) = used_luma(w, h, has_alpha(rgba, n));
    &&& is_flat(v.l, w, h, nx, ny)
    &&& is_flat(v.p, w, h, 3, 3)
    &&& is_flat(v.q, w, h, 3, 3)
    &&& has_alpha(rgba, n) ==> is_flat(v.a, w, h, 5, 5)
}

/// A channel without coefficients has the average everywhere.
proof fn lemma_flat_sample(
    m: Model<real>,
    dc: real,
    ac: Seq<real>,
    nx: int,
    ny: int,
    w: int,
    h: int,
    x: int,
    y: int,
)
    requires
        is_exact(m),
        1 <= nx <= MAX_SIDE,
        1 <= ny <= MAX_SIDE,
        forall|j: int| 0 <= j < triangle(nx, ny).len() - 1 ==> #[trigger] ac[j] == 0real,
    ensures
        sample(m, dc, ac, nx, ny, w, h, x, y) == dc,
{
    let list = triangle(nx, ny).drop_first();
    lemma_triangle_first(nx, ny);
    separable_inverse_transform(m, dc, ac, nx, ny, w, h, x, y);
    let f = |j: int| contribution(m, list, ac, w, h, x, y, j);
    assert forall|j: int| 0 <= j < list.len() implies #[trigger] f(j) == 0real by {
        let a = ac[j];
        let u = cosine(m, w, list[j].0 as int, x);
        let v = cosine(m, h, list[j].1 as int, y);
        assert(2real * a * u * v == 0real) by (nonlinear_arith)
            requires
                a == 0real,
        ;
    }
    lemma_sum_eq(f, |j: int| 0real, list.len() as int);
    lemma_sum_zero(list.len() as int);
}

/// With a scale of zero every nibble stands for zero.
proof fn lemma_zero_scale(m: Model<real>, hash: Seq<u8>, start: int, n: int, scale: real)
    requires
        is_exact(m),
        0 <= n,
        0 <= start,
        start + n <= nibbles_of(hash).len(),
        scale == 0real,
    ensures
        forall|j: int| 0 <= j < n ==> #[trigger] channel_of(m, hash, start, n, scale)[j] == 0real,
{
    let ac = channel_of(m, hash, start, n, scale);
    assert forall|j: int| 0 <= j < n implies #[trigger] ac[j] == 0real by {
        let bits = nibbles_of(hash).subrange(start, start + n)[j];
        let x = m.minus(m.over(m.from_int(bits as int), m.ratio(15, 2)), m.from_int(1));
        assert(x * scale == 0real) by (nonlinear_arith)
            requires
                scale == 0real,
        ;
    }
}

/// A scale of zero is recorded and read as zero.
proof fn lemma_zero_level(m: Model<real>, steps: int)
    requires
        is_exact(m),
        0 < steps <= 63,
    ensures
        quantized(m, 0real, steps) == 0,
        m.ratio(0, steps) == 0real,
{
    lemma_quantized(m, 0real, steps);
    assert(steps as real * 0real == 0real) by (nonlinear_arith);
    let s = steps as real;
    assert(0real / s == 0real) by (nonlinear_arith)
        requires
            s >= 1real,
    ;
}

/// In exact arithmetic a hash all of whose scales are zero is decoded to its average colour
/// everywhere, whatever its nibbles hold.
pub proof fn zero_scales_decode_to_average(m: Model<real>, hash: Seq<u8>, x: int, y: int)
    requires
        is_exact(m),
        is_complete(hash),
        has_zero_scales(hash),
    ensures
        decoded_pixel(m, hash, x, y) == average_pixel(m, hash),
{
    let header = header_of(hash);
    let (w, h) = size_of_hash(hash);
    let (nx, ny) = header.components();
    let luma = luma_count(header);
    let chroma = chroma_count();
    let l = average_l(m, header);
    let p = signed_average(m, header.p_dc as int);
    let q = signed_average(m, header.q_dc as int);
    lemma_triangle_first(nx, ny);
    lemma_small_triangles();
    let scale = m.ratio(header.l_scale as int, 31);
    let p_scale = chroma_scale(m, header.p_scale as int);
    let q_scale = chroma_scale(m, header.q_scale as int);
    lemma_zero_level(m, 31);
    lemma_zero_level(m, 63);
    lemma_zero_level(m, 15);
    assert(m.ratio(5, 4) == 5real / 4real);
    lemma_zero_scale(m, hash, 0, luma, scale);
    lemma_zero_scale(m, hash, luma, chroma, p_scale);
    lemma_zero_scale(m, hash, luma + chroma, chroma, q_scale);
    lemma_flat_sample(m, l, channel_of(m, hash, 0, luma, scale), nx, ny, w, h, x, y);
    lemma_flat_sample(m, p, channel_of(m, hash, luma, chroma, p_scale), 3, 3, w, h, x, y);
    lemma_flat_sample(m, q, channel_of(m, hash, luma + chroma, chroma, q_scale), 3, 3, w, h, x, y);
    if let Some((dc, a_scale)) = alpha_of(hash) {
        let start = luma + 2 * chroma;
        let read = m.ratio(a_scale as int, 15);
        lemma_zero_scale(m, hash, start, alpha_count(), read);
        lemma_flat_sample(
            m,
            average_a(m, hash),
            channel_of(m, hash, start, alpha_count(), read),
            5,
            5,
            w,
            h,
            x,
            y,
        );
    }
    average_colour_is_in_range(m, hash);
    let a = average_a(m, hash);
    assert(clamped(m, a) == a);
    assert(decoded_pixel(m, hash, x, y) == components_of(m, l, p, q, a));
}

/// In exact arithmetic every pixel of the image that a hash with zero scales is decoded to has
/// the components of the average colour.
pub proof fn zero_scales_decode_to_flat_image(m: Model<real>, hash: Seq<u8>, i: int, c: int)
    requires
        is_exact(m),
        is_complete(hash),
        has_zero_scales(hash),
        0 <= i < size_of_hash(hash).0 * size_of_hash(hash).1,
        0 <= c < 4,
    ensures
        decoded_rgba(m, hash)[4 * i + c] == average_pixel(m, hash)[c],
{
    let (w, h) = size_of_hash(hash);
    assert((4 * i + c) / 4 == i && (4 * i + c) % 4 == c);
    zero_scales_decode_to_average(m, hash, i % w, i / w);
}

/// In exact arithmetic the hash of an image of one colour whose channels consist of their
/// averages alone records no scale but zero.
pub proof fn solid_image_has_zero_scales(m: Model<real>, w: int, h: int, rgba: Seq<u8>)
    requires
        is_exact(m),
        0 < w <= MAX_SIDE,
        0 < h <= MAX_SIDE,
        is_solid(rgba, w * h),
        has_flat_channels(m, w, h, rgba),
    ensures
        has_zero_scales(thumb_hash(m, w, h, rgba)),
{
    let n = w * h;
    assert(0 < n <= 10000) by (nonlinear_arith)
        requires
            n == w * h,
            0 < w <= 100,
            0 < h <= 100,
    ;
    let alpha = has_alpha(rgba, n);
    let (nx, ny) = used_luma(w, h, alpha);
    let v = pixel_lpqa(m, rgba, n, 0);
    assert forall|i: int| 0 <= i < n implies #[trigger] pixel_lpqa(m, rgba, n, i) == v by {
        assert(component(rgba, i, 0) == component(rgba, 0, 0));
        assert(component(rgba, i, 1) == component(rgba, 0, 1));
        assert(component(rgba, i, 2) == component(rgba, 0, 2));
        assert(component(rgba, i, 3) == component(rgba, 0, 3));
    }
    every_image_reads_back(m, w, h, rgba);
    lemma_luma_extent(luma_limit(alpha), w, max_of(w, h));
    lemma_luma_extent(luma_limit(alpha), h, max_of(w, h));
    constant_channel_is_flat(m, plane_l(m, rgba, n), v.l, w, h, nx, ny);
    constant_channel_is_flat(m, plane_p(m, rgba, n), v.p, w, h, 3, 3);
    constant_channel_is_flat(m, plane_q(m, rgba, n), v.q, w, h, 3, 3);
    lemma_zero_level(m, 31);
    lemma_zero_level(m, 63);
    if alpha {
        constant_channel_is_flat(m, plane_a(m, rgba, n), v.a, w, h, 5, 5);
        lemma_zero_level(m, 15);
    }
}

/// In exact arithmetic an image of one colour whose channels consist of their averages alone is
/// decoded to an image of one colour: the average colour of its hash.
pub proof fn solid_image_decodes_solid(
    m: Model<real>,
    w: int,
    h: int,
    rgba: Seq<u8>,
    x: int,
    y: int,
)
    requires
        is_exact(m),
        0 < w <= MAX_SIDE,
        0 < h <= MAX_SIDE,
        is_solid(rgba, w * h),
        has_flat_channels(m, w, h, rgba),
    ensures
        decoded_pixel(m, thumb_hash(m, w, h, rgba), x, y) == average_pixel(
            m,
            thumb_hash(m, w, h, rgba),
        ),
{
    every_image_reads_back(m, w, h, rgba);
    solid_image_has_zero_scales(m, w, h, rgba);
    zero_scales_decode_to_average(m, thumb_hash(m, w, h, rgba), x, y);
}

/// The averages of an image of one colour are that colour.
proof fn lemma_solid_sums(rgba: Seq<u8>, n: int, c: int, k: int)
    requires
        is_solid(rgba, n),
        0 <= k <= n,
        0 <= c < 4,
    ensures
        alpha_sum(rgba, k) == component(rgba, 0, 3) * k,
        weighted_sum(rgba, c, k) == alpha_sum(rgba, k) * component(rgba, 0, c),
    decreases k,
{
    let a = component(rgba, 0, 3);
    let v = component(rgba, 0, c);
    if k > 0 {
        lemma_solid_sums(rgba, n, c, k - 1);
        assert(component(rgba, k - 1, 3) == a);
        assert(component(rgba, k - 1, c) == v);
        let before = alpha_sum(rgba, k - 1);
        assert(a * (k - 1) + a == a * k) by (nonlinear_arith);
        assert(before * v + a * v == (before + a) * v) by (nonlinear_arith);
    } else {
        assert(a * 0 == 0 && 0 * v == 0) by (nonlinear_arith);
    }
}

/// What an image of one colour shows on average is that colour.
pub proof fn lemma_solid_means(rgba: Seq<u8>, n: int, c: int)
    requires
        is_solid(rgba, n),
        0 < n,
        0 <= c < 4,
    ensures
        component(rgba, 0, 3) > 0 ==> mean_component(rgba, n, c) == component(rgba, 0, c) as real
            / 255real,
        mean_alpha(rgba, n) == component(rgba, 0, 3) as real / 255real,
{
    lemma_solid_sums(rgba, n, c, n);
    let a = component(rgba, 0, 3) as int;
    let v = component(rgba, 0, c) as int;
    let s = alpha_sum(rgba, n);
    lemma_real_product(a, n);
    lemma_real_product(s, v);
    let d = n as real;
    assert(a as real * d / (255real * d) == a as real / 255real) by (nonlinear_arith)
        requires
            d >= 1real,
    ;
    if a > 0 {
        assert(s >= 1) by (nonlinear_arith)
            requires
                s == a * n,
                a >= 1,
                n >= 1,
        ;
        let t = s as real;
        assert(t * v as real / (255real * t) == v as real / 255real) by (nonlinear_arith)
            requires
                t >= 1real,
        ;
    }
}

/// A number that is close to a component is decoded to a component that is close to it.
proof fn lemma_component_error(m: Model<real>, value: real, original: u8, error: int)
    requires
        is_exact(m),
        0 <= error <= 255,
        0real <= value <= 1real,
        size(value - original as real / 255real) * 255real < error as real,
    ensures
        -error <= whole_part(m, value) - original <= error,
{
    let scaled = value * 255real;
    assert(m.times(value, m.from_int(255)) == scaled);
    let whole = m.truncate(scaled);
    assert(whole as real <= scaled && scaled < whole as real + 1real);
}

/// A colour that is close to given components has components that are close to them.
proof fn lemma_pixel_error(
    m: Model<real>,
    color: (real, real, real, real),
    red: u8,
    green: u8,
    blue: u8,
    opacity: u8,
)
    requires
        is_exact(m),
        is_unit_colour(color),
        size(color.3 - opacity as real / 255real) <= 1real / 30real,
        opacity > 0 ==> size(color.0 - red as real / 255real) <= 4real / 189real,
        opacity > 0 ==> size(color.1 - green as real / 255real) <= 4real / 189real,
        opacity > 0 ==> size(color.2 - blue as real / 255real) <= 1real / 54real,
    ensures
        ({
            let pixel = pixel_of(m, color);
            &&& opacity > 0 ==> {
                &&& -6 <= pixel[0] - red <= 6
                &&& -6 <= pixel[1] - green <= 6
                &&& -6 <= pixel[2] - blue <= 6
            }
            &&& -9 <= pixel[3] - opacity <= 9
        }),
{
    if opacity > 0 {
        lemma_component_error(m, color.0, red, 6);
        lemma_component_error(m, color.1, green, 6);
        lemma_component_error(m, color.2, blue, 6);
    }
    lemma_component_error(m, color.3, opacity, 9);
}

/// Whether each part of a colour lies between zero and one.
spec fn is_unit_colour(color: (real, real, real, real)) -> bool {
    &&& 0real <= color.0 <= 1real
    &&& 0real <= color.1 <= 1real
    &&& 0real <= color.2 <= 1real
    &&& 0real <= color.3 <= 1real
}

/// In exact arithmetic an image of one colour whose channels consist of their averages alone is
/// decoded to that colour, up to 6 in red, green and blue and up to 9 in alpha. Of an image that
/// is wholly transparent only alpha is kept.
pub proof fn solid_colour_is_kept(m: Model<real>, w: int, h: int, rgba: Seq<u8>, x: int, y: int)
    requires
        is_exact(m),
        0 < w <= MAX_SIDE,
        0 < h <= MAX_SIDE,
        is_solid(rgba, w * h),
        has_flat_channels(m, w, h, rgba),
    ensures
        ({
            let pixel = decoded_pixel(m, thumb_hash(m, w, h, rgba), x, y);
            &&& component(rgba, 0, 3) > 0 ==> {
                &&& -6 <= pixel[0] - component(rgba, 0, 0) <= 6
                &&& -6 <= pixel[1] - component(rgba, 0, 1) <= 6
                &&& -6 <= pixel[2] - component(rgba, 0, 2) <= 6
            }
            &&& -9 <= pixel[3] - component(rgba, 0, 3) <= 9
        }),
{
    let n = w * h;
    assert(0 < n) by (nonlinear_arith)
        requires
            n == w * h,
            0 < w,
            0 < h,
    ;
    let hash = thumb_hash(m, w, h, rgba);
    let color = average_rgba(m, hash);
    assert(is_unit_colour(color)) by {
        every_image_reads_back(m, w, h, rgba);
        average_colour_is_in_range(m, hash);
    }
    average_colour_is_close(m, w, h, rgba);
    lemma_solid_means(rgba, n, 0);
    lemma_solid_means(rgba, n, 1);
    lemma_solid_means(rgba, n, 2);
    lemma_pixel_error(
        m,
        color,
        component(rgba, 0, 0),
        component(rgba, 0, 1),
        component(rgba, 0, 2),
        component(rgba, 0, 3),
    );
    solid_image_decodes_solid(m, w, h, rgba, x, y);
}

/// In exact arithmetic an opaque image of one colour with sides of at least four comes back in
/// one colour, opaque, and up to 6 in its own colour.
pub proof fn solid_opaque_image_comes_back(m: Model<real>, w: int, h: int, rgba: Seq<u8>, i: int)
    requires
        is_exact(m),
        4 <= w <= MAX_SIDE,
        4 <= h <= MAX_SIDE,
        is_solid(rgba, w * h),
        component(rgba, 0, 3) == 255,
        ({
            let (ow, oh) = size_of_hash(thumb_hash(m, w, h, rgba));
            0 <= i < ow * oh
        }),
    ensures
        ({
            let hash = thumb_hash(m, w, h, rgba);
            let image = decoded_rgba(m, hash);
            &&& is_complete(hash)
            &&& image[4 * i] == image[0]
            &&& image[4 * i + 1] == image[1]
            &&& image[4 * i + 2] == image[2]
            &&& -6 <= image[4 * i] - component(rgba, 0, 0) <= 6
            &&& -6 <= image[4 * i + 1] - component(rgba, 0, 1) <= 6
            &&& -6 <= image[4 * i + 2] - component(rgba, 0, 2) <= 6
            &&& image[4 * i + 3] == 255
        }),
{
    let n = w * h;
    assert(0 < n) by (nonlinear_arith)
        requires
            n == w * h,
            0 < w,
            0 < h,
    ;
    let hash = thumb_hash(m, w, h, rgba);
    assert(!has_alpha(rgba, n)) by {
        assert forall|k: int| 0 <= k < n implies #[trigger] component(rgba, k, 3) == 255 by {
            assert(component(rgba, k, 3) == component(rgba, 0, 3));
        }
    }
    assert(has_flat_channels(m, w, h, rgba)) by {
        lemma_luma_extent(luma_limit(false), w, max_of(w, h));
        lemma_luma_extent(luma_limit(false), h, max_of(w, h));
    }
    assert(is_complete(hash)) by {
        every_image_reads_back(m, w, h, rgba);
    }
    solid_image_has_zero_scales(m, w, h, rgba);
    let pixel = average_pixel(m, hash);
    assert(-6 <= pixel[0] - component(rgba, 0, 0) <= 6 && -6 <= pixel[1] - component(rgba, 0, 1)
        <= 6 && -6 <= pixel[2] - component(rgba, 0, 2) <= 6) by {
        solid_image_decodes_solid(m, w, h, rgba, 0, 0);
        solid_colour_is_kept(m, w, h, rgba, 0, 0);
    }
    opaque_image_decodes_opaque(m, w, h, rgba, i);
    lemma_flat_pixel(m, hash, i);
}

/// A hash with zero scales is decoded to the same colour at the pixel `i` and at the first one.
proof fn lemma_flat_pixel(m: Model<real>, hash: Seq<u8>, i: int)
    requires
        is_exact(m),
        is_complete(hash),
        has_zero_scales(hash),
        0 <= i < size_of_hash(hash).0 * size_of_hash(hash).1,
    ensures
        decoded_rgba(m, hash)[4 * i] == average_pixel(m, hash)[0] == decoded_rgba(m, hash)[0],
        decoded_rgba(m, hash)[4 * i + 1] == average_pixel(m, hash)[1] == decoded_rgba(m, hash)[1],
        decoded_rgba(m, hash)[4 * i + 2] == average_pixel(m, hash)[2] == decoded_rgba(m, hash)[2],
{
    zero_scales_decode_to_flat_image(m, hash, i, 0);
    zero_scales_decode_to_flat_image(m, hash, i, 1);
    zero_scales_decode_to_flat_image(m, hash, i, 2);
    zero_scales_decode_to_flat_image(m, hash, 0, 0);
    zero_scales_decode_to_flat_image(m, hash, 0, 1);
    zero_scales_decode_to_flat_image(m, hash, 0, 2);
}

} // verus!
