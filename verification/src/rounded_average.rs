//! The average colour that a hash records in an arithmetic that rounds.
use crate::arithmetic::Model;
use crate::color::{
    alpha_sum, clamped, has_alpha, lemma_has_alpha, plane_a, plane_l, plane_p, plane_q, to_rgb,
};
use crate::cosine::cosine;
use crate::decoder::{average_a, average_l, average_rgba, signed_average};
use crate::encoder::{
    encoded_alpha, encoded_header, encoded_nibbles, quantized, quantized_signed, thumb_hash,
};
use crate::exact::{half, lemma_sum_eq, lemma_sum_swap, sum};
use crate::fidelity::{lemma_sum_of_rows, size};
use crate::forward::{channel_scale, coefficient};
use crate::geometry::MAX_SIDE;
use crate::header::{header_of, header_reread, Header};
use crate::image::{
    channel_means, lemma_mean_component, lemma_weighted_sum_bounds, mean_alpha, mean_component,
    shown_a, shown_l, shown_p, shown_q,
};
use crate::parts::{alpha_of, averages_round_trip, has_averages};
use crate::rounded::{
    is_bounded, is_near, is_rounded, lemma_integer, lemma_kept_integer, lemma_near_minus,
    lemma_near_plus, lemma_near_times, lemma_times, lemma_unit, micro, unit, Meaning,
};
use crate::rounded_color::{channel_values_are_near, lemma_near_over, lemma_ratio};
use crate::rounded_cosine::cosines_are_bounded;
use crate::rounded_forward::{
    exact_column, lemma_near_coefficient, lemma_rounded_channel, lemma_sum_near,
};
use crate::rounded_hash::{lemma_rounded_level, lemma_rounded_signed_level, rounded_header_fits};
use vstd::prelude::*;

verus! {

/// In rounded arithmetic the coefficient of the frequencies `(0, 0)` is close to the average of
/// the numbers that the samples are close to.
#[verifier::spinoff_prover]
proof fn lemma_rounded_mean<N>(
    m: Model<N>,
    k: Meaning<N>,
    samples: Seq<N>,
    x: spec_fn(int) -> real,
    w: int,
    h: int,
)
    requires
        is_rounded(m, k),
        1 <= w <= MAX_SIDE,
        1 <= h <= MAX_SIDE,
        samples.len() == w * h,
        forall|i: int| 0 <= i < w * h ==> is_near(k, #[trigger] samples[i], x(i), micro(80)),
        forall|i: int| 0 <= i < w * h ==> size(#[trigger] x(i)) <= 1real,
    ensures
        is_near(
            k,
            coefficient(m, samples, w, h, 0, 0),
            sum(x, w * h) / ((w * h) as real),
            micro(100),
        ),
{
    let n = w * h;
    assert(1 <= n) by (nonlinear_arith)
        requires
            n == w * h,
            1 <= w,
            1 <= h,
    ;
    assert forall|i: int| 0 <= i < n implies is_bounded(
        k,
        #[trigger] samples[i],
        1real + micro(80),
    ) by {
        assert(size(x(i)) <= 1real);
    }
    lemma_near_coefficient(m, k, samples, w, h, 0, 0);
    let v = |i: int| k.value(samples[i]);
    let g = |i: int, j: int| v(j * w + i);
    let columns = |i: int| sum(|j: int| g(i, j), h);
    let weighted = |i: int|
        exact_column(m, k, samples, w, h, 0, i) * k.value(cosine(m, w, 0, i));
    assert forall|i: int| 0 <= i < w implies #[trigger] weighted(i) == columns(i) by {
        let a = |y: int| k.value(samples[y * w + i]) * k.value(cosine(m, h, 0, y));
        let b = |j: int| g(i, j);
        assert forall|j: int| 0 <= j < h implies #[trigger] a(j) == b(j) by {
            cosines_are_bounded(m, k, h, 0, j);
        }
        lemma_sum_eq(a, b, h);
        cosines_are_bounded(m, k, w, 0, i);
    }
    lemma_sum_eq(weighted, columns, w);
    lemma_sum_swap(g, w, h);
    lemma_sum_of_rows(v, w, h);
    let rows_g = |j: int| sum(|i: int| g(i, j), w);
    let rows_v = |j: int| sum(|i: int| v(j * w + i), w);
    assert forall|j: int| 0 <= j < h implies #[trigger] rows_g(j) == rows_v(j) by {
        lemma_sum_eq(|i: int| g(i, j), |i: int| v(j * w + i), w);
    }
    lemma_sum_eq(rows_g, rows_v, h);
    assert forall|i: int| 0 <= i < n implies size(#[trigger] v(i) - x(i)) <= micro(80) by {
        assert(is_near(k, samples[i], x(i), micro(80)));
    }
    lemma_sum_near(v, x, n, micro(80));
    let a = sum(v, n);
    let b = sum(x, n);
    let d = n as real;
    assert(size(a / d - b / d) <= micro(80)) by (nonlinear_arith)
        requires
            size(a - b) <= d * micro(80),
            1real <= d,
    {
        assert(a / d - b / d == (a - b) / d);
    }
}

/// A number that is close to an average between zero and one is recorded on `steps` steps as a
/// number that stands for almost the average.
#[verifier::spinoff_prover]
proof fn lemma_read_level<N>(m: Model<N>, k: Meaning<N>, value: N, mean: real, steps: int)
    requires
        is_rounded(m, k),
        is_near(k, value, mean, micro(100)),
        0real <= mean <= 1real,
        1 <= steps <= 63,
    ensures
        quantized(m, value, steps) <= steps,
        size(quantized(m, value, steps) as real / (steps as real) - mean) <= half()
            / (steps as real) + micro(105),
{
    lemma_unit();
    lemma_rounded_level(m, k, value, steps);
    lemma_integer(m, k, steps);
    let s = steps as real;
    let v = k.value(value);
    let scaled = m.times(m.from_int(steps), value);
    lemma_times(m, k, m.from_int(steps), value, s, 1007real / 1000real);
    let x = k.value(scaled);
    let q = quantized(m, value, steps) as real;
    assert(unit() * (s * (1007real / 1000real)) <= s * micro(1)) by (nonlinear_arith)
        requires
            unit() == 1real / 16777216real,
            micro(1) == 1real / 1000000real,
            1real <= s,
    ;
    assert(size(s * v - s * mean) <= s * micro(100)) by (nonlinear_arith)
        requires
            size(v - mean) <= micro(100),
            1real <= s,
    {
        assert(s * v - s * mean == s * (v - mean));
    }
    assert(s * micro(100) + s * micro(1) + micro(1) <= s * micro(103)) by (nonlinear_arith)
        requires
            1real <= s,
            micro(100) == 100real / 1000000real,
            micro(103) == 103real / 1000000real,
            micro(1) == 1real / 1000000real,
    ;
    assert(size(x - s * mean) <= s * micro(103));
    assert(s * mean >= 0real && s * micro(103) >= 0real) by (nonlinear_arith)
        requires
            0real <= mean,
            1real <= s,
            micro(103) == 103real / 1000000real,
    ;
    assert(size(q - s * mean) <= half() + s * micro(103));
    assert(size(q / s - mean) <= half() / s + micro(103)) by (nonlinear_arith)
        requires
            size(q - s * mean) <= half() + s * micro(103),
            1real <= s,
    {
        assert(q / s - mean == (q - s * mean) / s);
        assert((half() + s * micro(103)) / s == half() / s + micro(103));
    }
}

/// A number that is close to an average between minus one and one is recorded as a number that
/// stands for almost the average.
#[verifier::spinoff_prover]
proof fn lemma_read_signed_level<N>(m: Model<N>, k: Meaning<N>, value: N, mean: real)
    requires
        is_rounded(m, k),
        is_near(k, value, mean, micro(100)),
        -1real <= mean <= 1real,
    ensures
        quantized_signed(m, value) <= 63,
        size(quantized_signed(m, value) as real / (63real / 2real) - 1real - mean) <= 1real / 63real
            + micro(105),
{
    lemma_unit();
    lemma_rounded_signed_level(m, k, value);
    lemma_ratio(m, k, 63, 2);
    let half_range = m.ratio(63, 2);
    let t = k.value(half_range);
    assert(unit() * (63real / 2real) == 63real / 33554432real) by (nonlinear_arith)
        requires
            unit() == 1real / 16777216real,
    ;
    assert(size(t - 63real / 2real) <= micro(2));
    let scaled = m.times(half_range, value);
    lemma_times(m, k, half_range, value, 316real / 10real, 1007real / 1000real);
    let v = k.value(value);
    assert(size(t * v - 63real / 2real * mean) <= 63real / 2real * micro(100) + micro(3))
        by (nonlinear_arith)
        requires
            size(t - 63real / 2real) <= micro(2),
            size(v - mean) <= micro(100),
            size(v) <= 1007real / 1000real,
            micro(2) == 2real / 1000000real,
            micro(3) == 3real / 1000000real,
    {
        assert(t * v - 63real / 2real * mean == (t - 63real / 2real) * v + 63real / 2real * (v
            - mean));
    }
    let exact = t + k.value(scaled);
    let shifted = m.plus(half_range, scaled);
    assert(k.rounds(shifted, exact));
    assert(unit() * size(exact) <= 64real * unit()) by (nonlinear_arith)
        requires
            size(exact) <= 64real,
            unit() == 1real / 16777216real,
    ;
    let x = k.value(shifted);
    let q = quantized_signed(m, value) as real;
    let y = 63real / 2real * (1real + mean);
    assert(size(x - y) <= 63real / 2real * micro(102));
    assert(size(q - y) <= half() + 63real / 2real * micro(102));
}

/// The colour that is computed from a luminance and two chroma values.
#[verifier::spinoff_prover]
proof fn lemma_rounded_rgb<N>(
    m: Model<N>,
    k: Meaning<N>,
    l: N,
    x: real,
    p: N,
    y: real,
    q: N,
    z: real,
)
    requires
        is_rounded(m, k),
        is_near(k, l, x, micro(1)),
        is_near(k, p, y, micro(10)),
        is_near(k, q, z, micro(10)),
        0real <= x <= 1real,
        -1real <= y <= 1real,
        -1real <= z <= 1real,
    ensures
        is_near(k, to_rgb(m, l, p, q).r, x + y / 3real + z / 2real, micro(50)),
        is_near(k, to_rgb(m, l, p, q).g, x + y / 3real - z / 2real, micro(70)),
        is_near(k, to_rgb(m, l, p, q).b, x - 2real / 3real * y, micro(30)),
{
    lemma_unit();
    lemma_ratio(m, k, 2, 3);
    lemma_integer(m, k, 3);
    let share = m.ratio(2, 3);
    assert(unit() * (2real / 3real) <= unit()) by (nonlinear_arith)
        requires
            unit() == 1real / 16777216real,
    ;
    assert(is_near(k, share, 2real / 3real, micro(1)));
    let part = m.times(share, p);
    assert(is_near(k, part, 2real / 3real * y, micro(15))) by {
        let a = k.value(share);
        let b = k.value(p);
        lemma_times(m, k, share, p, 1real, 2real);
        assert(size(a * b - 2real / 3real * y) <= micro(12)) by (nonlinear_arith)
            requires
                size(a - 2real / 3real) <= micro(1),
                size(b - y) <= micro(10),
                size(y) <= 1real,
                size(a) <= 1real,
                micro(1) == 1real / 1000000real,
                micro(10) == 10real / 1000000real,
                micro(12) == 12real / 1000000real,
        {
            assert(a * b - 2real / 3real * y == a * (b - y) + (a - 2real / 3real) * y);
        }
    }
    let b = m.minus(l, part);
    lemma_near_minus(m, k, l, x, micro(1), part, 2real / 3real * y, micro(15));
    let three = m.from_int(3);
    lemma_near_times(m, k, three, 3real, 0real, l, x, micro(1));
    let triple = m.times(three, l);
    assert(is_near(k, triple, 3real * x, micro(5)));
    let rest = m.minus(triple, b);
    lemma_near_minus(m, k, triple, 3real * x, micro(5), b, x - 2real / 3real * y, micro(17));
    let twice = m.plus(rest, q);
    lemma_near_plus(
        m,
        k,
        rest,
        3real * x - (x - 2real / 3real * y),
        micro(23),
        q,
        z,
        micro(10),
    );
    let s = 3real * x - (x - 2real / 3real * y) + z;
    lemma_near_over(m, k, twice, s, micro(34), 2);
    let r = m.over(twice, m.from_int(2));
    assert(s / 2real == x + y / 3real + z / 2real);
    assert(is_near(k, r, x + y / 3real + z / 2real, micro(36)));
    lemma_near_minus(m, k, r, x + y / 3real + z / 2real, micro(36), q, z, micro(10));
}

/// The chroma average that a recorded number stands for.
#[verifier::spinoff_prover]
pub proof fn lemma_rounded_signed<N>(m: Model<N>, k: Meaning<N>, level: int)
    requires
        is_rounded(m, k),
        0 <= level <= 63,
    ensures
        is_near(k, signed_average(m, level), level as real / (63real / 2real) - 1real, micro(10)),
{
    lemma_unit();
    lemma_ratio(m, k, 63, 2);
    lemma_integer(m, k, level);
    lemma_integer(m, k, 1);
    let half_range = m.ratio(63, 2);
    let t = k.value(half_range);
    assert(unit() * (63real / 2real) == 63real / 33554432real) by (nonlinear_arith)
        requires
            unit() == 1real / 16777216real,
    ;
    assert(size(t - 63real / 2real) <= micro(2));
    let v = level as real;
    let steps = m.over(m.from_int(level), half_range);
    let exact = v / (63real / 2real);
    assert(size(v / t - exact) <= micro(1) && size(v / t) <= 3real) by (nonlinear_arith)
        requires
            size(t - 63real / 2real) <= micro(2),
            0real <= v <= 63real,
            exact == v / (63real / 2real),
            micro(2) == 2real / 1000000real,
            micro(1) == 1real / 1000000real,
    {
        assert(v / t - exact == v * (63real / 2real - t) / (t * (63real / 2real)));
        assert(t * (63real / 2real) >= 900real);
        assert(size(v * (63real / 2real - t)) <= 63real * micro(2));
    }
    assert(k.rounds(steps, v / t));
    assert(unit() * size(v / t) <= 3real * unit()) by (nonlinear_arith)
        requires
            size(v / t) <= 3real,
            unit() == 1real / 16777216real,
    ;
    assert(is_near(k, steps, exact, micro(3)));
    assert(0real <= exact <= 2real);
    lemma_near_minus(m, k, steps, exact, micro(3), m.from_int(1), 1real, 0real);
}

/// The averages of the channels of an image are close to those of what it shows.
#[verifier::spinoff_prover]
proof fn lemma_rounded_means<N>(m: Model<N>, k: Meaning<N>, w: int, h: int, rgba: Seq<u8>)
    requires
        is_rounded(m, k),
        0 < w <= MAX_SIDE,
        0 < h <= MAX_SIDE,
    ensures
        ({
            let n = w * h;
            let r = mean_component(rgba, n, 0);
            let g = mean_component(rgba, n, 1);
            let b = mean_component(rgba, n, 2);
            &&& is_near(
                k,
                coefficient(m, plane_l(m, rgba, n), w, h, 0, 0),
                (r + g + b) / 3real,
                micro(100),
            )
            &&& is_near(
                k,
                coefficient(m, plane_p(m, rgba, n), w, h, 0, 0),
                (r + g) / 2real - b,
                micro(100),
            )
            &&& is_near(k, coefficient(m, plane_q(m, rgba, n), w, h, 0, 0), r - g, micro(100))
            &&& is_near(
                k,
                coefficient(m, plane_a(m, rgba, n), w, h, 0, 0),
                mean_alpha(rgba, n),
                micro(100),
            )
        }),
{
    let n = w * h;
    assert(0 < n <= 10000) by (nonlinear_arith)
        requires
            n == w * h,
            0 < w <= 100,
            0 < h <= 100,
    ;
    let l = plane_l(m, rgba, n);
    let p = plane_p(m, rgba, n);
    let q = plane_q(m, rgba, n);
    let a = plane_a(m, rgba, n);
    let xl = |i: int| shown_l(rgba, n, i);
    let xp = |i: int| shown_p(rgba, n, i);
    let xq = |i: int| shown_q(rgba, n, i);
    let xa = |i: int| shown_a(rgba, i);
    assert forall|i: int| 0 <= i < n implies is_near(k, #[trigger] l[i], xl(i), micro(80)) by {
        channel_values_are_near(m, k, rgba, n, i);
    }
    assert forall|i: int| 0 <= i < n implies is_near(k, #[trigger] p[i], xp(i), micro(80)) by {
        channel_values_are_near(m, k, rgba, n, i);
    }
    assert forall|i: int| 0 <= i < n implies is_near(k, #[trigger] q[i], xq(i), micro(80)) by {
        channel_values_are_near(m, k, rgba, n, i);
    }
    assert forall|i: int| 0 <= i < n implies is_near(k, #[trigger] a[i], xa(i), micro(80)) by {
        channel_values_are_near(m, k, rgba, n, i);
    }
    assert forall|i: int| 0 <= i < n implies size(#[trigger] xl(i)) <= 1real by {
        channel_values_are_near(m, k, rgba, n, i);
    }
    assert forall|i: int| 0 <= i < n implies size(#[trigger] xp(i)) <= 1real by {
        channel_values_are_near(m, k, rgba, n, i);
    }
    assert forall|i: int| 0 <= i < n implies size(#[trigger] xq(i)) <= 1real by {
        channel_values_are_near(m, k, rgba, n, i);
    }
    assert forall|i: int| 0 <= i < n implies size(#[trigger] xa(i)) <= 1real by {
        channel_values_are_near(m, k, rgba, n, i);
    }
    lemma_rounded_mean(m, k, l, xl, w, h);
    lemma_rounded_mean(m, k, p, xp, w, h);
    lemma_rounded_mean(m, k, q, xq, w, h);
    lemma_rounded_mean(m, k, a, xa, w, h);
    channel_means(rgba, n);
}

/// In rounded arithmetic the alpha byte of the hash of an image fits into its bits.
#[verifier::spinoff_prover]
pub proof fn lemma_rounded_alpha_fits<N>(m: Model<N>, k: Meaning<N>, w: int, h: int, rgba: Seq<u8>)
    requires
        is_rounded(m, k),
        0 < w <= MAX_SIDE,
        0 < h <= MAX_SIDE,
    ensures
        encoded_alpha(m, w, h, rgba) matches Some((dc, scale)) ==> dc < 16 && scale < 16,
{
    let n = w * h;
    assert(0 < n <= 10000) by (nonlinear_arith)
        requires
            n == w * h,
            0 < w <= 100,
            0 < h <= 100,
    ;
    let a = plane_a(m, rgba, n);
    assert forall|i: int| 0 <= i < n implies is_bounded(
        k,
        #[trigger] a[i],
        1real + micro(80),
    ) by {
        channel_values_are_near(m, k, rgba, n, i);
    }
    lemma_rounded_channel(m, k, a, w, h, 5, 5);
    lemma_rounded_level(m, k, coefficient(m, a, w, h, 0, 0), 15);
    lemma_rounded_level(m, k, channel_scale(m, a, w, h, 5, 5), 15);
}

/// In rounded arithmetic the header and the alpha byte of the hash of every image without an
/// empty side are read back as they were written.
pub proof fn rounded_averages_read_back<N>(
    m: Model<N>,
    k: Meaning<N>,
    w: int,
    h: int,
    rgba: Seq<u8>,
)
    requires
        is_rounded(m, k),
        0 < w <= MAX_SIDE,
        0 < h <= MAX_SIDE,
    ensures
        has_averages(thumb_hash(m, w, h, rgba)),
        header_of(thumb_hash(m, w, h, rgba)) == encoded_header(m, w, h, rgba),
        alpha_of(thumb_hash(m, w, h, rgba)) == encoded_alpha(m, w, h, rgba),
{
    rounded_header_fits(m, k, w, h, rgba);
    lemma_rounded_alpha_fits(m, k, w, h, rgba);
    averages_round_trip(
        encoded_header(m, w, h, rgba),
        encoded_alpha(m, w, h, rgba),
        encoded_nibbles(m, w, h, rgba),
    );
}

/// A clamped number that is close to a number between zero and one is close to it, too.
proof fn lemma_rounded_clamp<N>(m: Model<N>, k: Meaning<N>, a: N, x: real, t: real)
    requires
        is_rounded(m, k),
        is_near(k, a, x, t),
        0real <= x <= 1real,
    ensures
        is_near(k, clamped(m, a), x, t),
        0real <= k.value(clamped(m, a)) <= 1real,
{
    lemma_integer(m, k, 0);
    lemma_integer(m, k, 1);
}

/// What the averages in the header of the hash of an image stand for is close to the channel
/// values of its average colour.
#[verifier::spinoff_prover]
proof fn lemma_recorded_averages<N>(m: Model<N>, k: Meaning<N>, w: int, h: int, rgba: Seq<u8>)
    requires
        is_rounded(m, k),
        0 < w <= MAX_SIDE,
        0 < h <= MAX_SIDE,
    ensures
        ({
            let header = encoded_header(m, w, h, rgba);
            let r = mean_component(rgba, w * h, 0);
            let g = mean_component(rgba, w * h, 1);
            let b = mean_component(rgba, w * h, 2);
            let x = header.l_dc as real / 63real;
            let y = header.p_dc as real / (63real / 2real) - 1real;
            let z = header.q_dc as real / (63real / 2real) - 1real;
            &&& header.l_dc <= 63
            &&& header.p_dc <= 63
            &&& header.q_dc <= 63
            &&& size(x - (r + g + b) / 3real) <= 1real / 126real + micro(105)
            &&& size(y - ((r + g) / 2real - b)) <= 1real / 63real + micro(105)
            &&& size(z - (r - g)) <= 1real / 63real + micro(105)
        }),
{
    let n = w * h;
    assert(0 < n) by (nonlinear_arith)
        requires
            n == w * h,
            0 < w,
            0 < h,
    ;
    lemma_rounded_means(m, k, w, h, rgba);
    let r = mean_component(rgba, n, 0);
    let g = mean_component(rgba, n, 1);
    let b = mean_component(rgba, n, 2);
    lemma_mean_component(rgba, n, 0);
    lemma_mean_component(rgba, n, 1);
    lemma_mean_component(rgba, n, 2);
    let l = coefficient(m, plane_l(m, rgba, n), w, h, 0, 0);
    let p = coefficient(m, plane_p(m, rgba, n), w, h, 0, 0);
    let q = coefficient(m, plane_q(m, rgba, n), w, h, 0, 0);
    lemma_read_level(m, k, l, (r + g + b) / 3real, 63);
    lemma_read_signed_level(m, k, p, (r + g) / 2real - b);
    lemma_read_signed_level(m, k, q, r - g);
}

/// The colour that is read from three recorded averages is close to a colour whose channel values
/// they are close to.
#[verifier::spinoff_prover]
proof fn lemma_rounded_colour<N>(
    m: Model<N>,
    k: Meaning<N>,
    header: Header,
    r: real,
    g: real,
    b: real,
)
    requires
        is_rounded(m, k),
        header.l_dc <= 63,
        header.p_dc <= 63,
        header.q_dc <= 63,
        0real <= r <= 1real,
        0real <= g <= 1real,
        0real <= b <= 1real,
        ({
            let x = header.l_dc as real / 63real;
            let y = header.p_dc as real / (63real / 2real) - 1real;
            let z = header.q_dc as real / (63real / 2real) - 1real;
            &&& size(x - (r + g + b) / 3real) <= 1real / 126real + micro(105)
            &&& size(y - ((r + g) / 2real - b)) <= 1real / 63real + micro(105)
            &&& size(z - (r - g)) <= 1real / 63real + micro(105)
        }),
    ensures
        ({
            let rgb = to_rgb(
                m,
                average_l(m, header),
                signed_average(m, header.p_dc as int),
                signed_average(m, header.q_dc as int),
            );
            &&& is_near(k, clamped(m, rgb.r), r, 22real / 1000real)
            &&& is_near(k, clamped(m, rgb.g), g, 22real / 1000real)
            &&& is_near(k, clamped(m, rgb.b), b, 20real / 1000real)
            &&& 0real <= k.value(clamped(m, rgb.r)) <= 1real
            &&& 0real <= k.value(clamped(m, rgb.g)) <= 1real
            &&& 0real <= k.value(clamped(m, rgb.b)) <= 1real
        }),
{
    lemma_recorded_rgb(m, k, header);
    let l = average_l(m, header);
    let p = signed_average(m, header.p_dc as int);
    let q = signed_average(m, header.q_dc as int);
    let rgb = to_rgb(m, l, p, q);
    lemma_rounded_clamp(m, k, rgb.r, r, 22real / 1000real);
    lemma_rounded_clamp(m, k, rgb.g, g, 22real / 1000real);
    lemma_rounded_clamp(m, k, rgb.b, b, 20real / 1000real);
}

/// In rounded arithmetic the average colour that is read from the hash of an image without an
/// empty side is that of the image, weighted by alpha, up to `22 / 1000` in red and green and
/// `20 / 1000` in blue, each between zero and one; its alpha value is that of the image up to
/// `34 / 1000`, and exact for an opaque image.
#[verifier::spinoff_prover]
pub proof fn rounded_average_is_close<N>(m: Model<N>, k: Meaning<N>, w: int, h: int, rgba: Seq<u8>)
    requires
        is_rounded(m, k),
        0 < w <= MAX_SIDE,
        0 < h <= MAX_SIDE,
    ensures
        ({
            let n = w * h;
            let color = average_rgba(m, thumb_hash(m, w, h, rgba));
            &&& is_near(k, color.0, mean_component(rgba, n, 0), 22real / 1000real)
            &&& is_near(k, color.1, mean_component(rgba, n, 1), 22real / 1000real)
            &&& is_near(k, color.2, mean_component(rgba, n, 2), 20real / 1000real)
            &&& is_near(k, color.3, mean_alpha(rgba, n), 34real / 1000real)
            &&& 0real <= k.value(color.0) <= 1real
            &&& 0real <= k.value(color.1) <= 1real
            &&& 0real <= k.value(color.2) <= 1real
            &&& !has_alpha(rgba, n) ==> k.value(color.3) == 1real && mean_alpha(rgba, n) == 1real
        }),
{
    let n = w * h;
    assert(0 < n) by (nonlinear_arith)
        requires
            n == w * h,
            0 < w,
            0 < h,
    ;
    rounded_averages_read_back(m, k, w, h, rgba);
    lemma_mean_component(rgba, n, 0);
    lemma_mean_component(rgba, n, 1);
    lemma_mean_component(rgba, n, 2);
    lemma_recorded_averages(m, k, w, h, rgba);
    lemma_rounded_colour(
        m,
        k,
        encoded_header(m, w, h, rgba),
        mean_component(rgba, n, 0),
        mean_component(rgba, n, 1),
        mean_component(rgba, n, 2),
    );
    lemma_rounded_alpha(m, k, w, h, rgba);
}

/// In rounded arithmetic the averages that the hash of an image without an empty side records lie
/// within `51 / 100` of those of the image on their scales.
pub proof fn rounded_recorded_averages<N>(
    m: Model<N>,
    k: Meaning<N>,
    w: int,
    h: int,
    rgba: Seq<u8>,
)
    requires
        is_rounded(m, k),
        0 < w <= MAX_SIDE,
        0 < h <= MAX_SIDE,
    ensures
        ({
            let hash = thumb_hash(m, w, h, rgba);
            let header = header_of(hash);
            let r = mean_component(rgba, w * h, 0);
            let g = mean_component(rgba, w * h, 1);
            let b = mean_component(rgba, w * h, 2);
            let t = 51real / 100real;
            &&& size(header.l_dc as real - 63real * ((r + g + b) / 3real)) <= t
            &&& size(header.p_dc as real - 63real / 2real * (1real + ((r + g) / 2real - b))) <= t
            &&& size(header.q_dc as real - 63real / 2real * (1real + (r - g))) <= t
            &&& alpha_of(hash) matches Some((dc, _)) ==> size(
                dc as real - 15real * mean_alpha(rgba, w * h),
            ) <= t
        }),
{
    rounded_averages_read_back(m, k, w, h, rgba);
    lemma_recorded_averages(m, k, w, h, rgba);
    if has_alpha(rgba, w * h) {
        lemma_recorded_alpha(m, k, w, h, rgba);
        lemma_rounded_alpha_fits(m, k, w, h, rgba);
    }
}

/// In rounded arithmetic the average colour that is read from a hash has components between zero
/// and one.
#[verifier::spinoff_prover]
pub proof fn rounded_average_is_in_range<N>(m: Model<N>, k: Meaning<N>, hash: Seq<u8>)
    requires
        is_rounded(m, k),
        has_averages(hash),
    ensures
        ({
            let color = average_rgba(m, hash);
            &&& k.finite(color.0) && 0real <= k.value(color.0) <= 1real
            &&& k.finite(color.1) && 0real <= k.value(color.1) <= 1real
            &&& k.finite(color.2) && 0real <= k.value(color.2) <= 1real
            &&& k.finite(color.3) && 0real <= k.value(color.3) <= 1real
        }),
{
    let header = header_of(hash);
    header_reread(hash);
    lemma_recorded_rgb(m, k, header);
    lemma_integer(m, k, 0);
    lemma_integer(m, k, 1);
    if let Some((dc, _)) = alpha_of(hash) {
        lemma_part_of_one(m, k, dc as int, 15);
    }
}

/// A quotient of two small integers of which the first is not larger than the second lies between
/// zero and one.
#[verifier::spinoff_prover]
proof fn lemma_part_of_one<N>(m: Model<N>, k: Meaning<N>, a: int, b: int)
    requires
        is_rounded(m, k),
        0 <= a <= b <= 255,
        1 <= b,
    ensures
        k.finite(m.ratio(a, b)),
        0real <= k.value(m.ratio(a, b)) <= 1real,
{
    lemma_integer(m, k, a);
    lemma_integer(m, k, b);
    lemma_kept_integer(m, k, 0);
    lemma_kept_integer(m, k, 1);
    let q = a as real / (b as real);
    assert(0real <= q <= 1real) by (nonlinear_arith)
        requires
            q == a as real / (b as real),
            0real <= a as real <= b as real,
            1real <= b as real,
    ;
    assert(k.rounds(m.ratio(a, b), q));
    assert(k.order_rule(0real, q) && k.order_rule(q, 1real));
}

/// The colour that three recorded averages stand for.
#[verifier::spinoff_prover]
proof fn lemma_recorded_rgb<N>(m: Model<N>, k: Meaning<N>, header: Header)
    requires
        is_rounded(m, k),
        header.l_dc <= 63,
        header.p_dc <= 63,
        header.q_dc <= 63,
    ensures
        ({
            let x = header.l_dc as real / 63real;
            let y = header.p_dc as real / (63real / 2real) - 1real;
            let z = header.q_dc as real / (63real / 2real) - 1real;
            let rgb = to_rgb(
                m,
                average_l(m, header),
                signed_average(m, header.p_dc as int),
                signed_average(m, header.q_dc as int),
            );
            &&& is_near(k, rgb.r, x + y / 3real + z / 2real, micro(50))
            &&& is_near(k, rgb.g, x + y / 3real - z / 2real, micro(70))
            &&& is_near(k, rgb.b, x - 2real / 3real * y, micro(30))
        }),
{
    lemma_unit();
    let x = header.l_dc as real / 63real;
    let y = header.p_dc as real / (63real / 2real) - 1real;
    let z = header.q_dc as real / (63real / 2real) - 1real;
    let l = average_l(m, header);
    assert(is_near(k, l, x, micro(1))) by {
        lemma_ratio(m, k, header.l_dc as int, 63);
        assert(unit() * x <= unit()) by (nonlinear_arith)
            requires
                x <= 1real,
                unit() == 1real / 16777216real,
        ;
    }
    lemma_rounded_signed(m, k, header.p_dc as int);
    lemma_rounded_signed(m, k, header.q_dc as int);
    lemma_rounded_rgb(
        m,
        k,
        l,
        x,
        signed_average(m, header.p_dc as int),
        y,
        signed_average(m, header.q_dc as int),
        z,
    );
}

/// The recorded alpha average stands for almost the average.
#[verifier::spinoff_prover]
proof fn lemma_recorded_alpha<N>(m: Model<N>, k: Meaning<N>, w: int, h: int, rgba: Seq<u8>)
    requires
        is_rounded(m, k),
        0 < w <= MAX_SIDE,
        0 < h <= MAX_SIDE,
    ensures
        ({
            let dc = coefficient(m, plane_a(m, rgba, w * h), w, h, 0, 0);
            let level = quantized(m, dc, 15);
            &&& level <= 15
            &&& size(level as real / 15real - mean_alpha(rgba, w * h)) <= half() / 15real
                + micro(105)
            &&& 0real <= mean_alpha(rgba, w * h) <= 1real
        }),
{
    let n = w * h;
    assert(0 < n <= 10000) by (nonlinear_arith)
        requires
            n == w * h,
            0 < w <= 100,
            0 < h <= 100,
    ;
    let d = n as real;
    let mean = mean_alpha(rgba, n);
    let a = alpha_sum(rgba, n) as real;
    lemma_weighted_sum_bounds(rgba, 0, n);
    assert(0real <= mean <= 1real) by (nonlinear_arith)
        requires
            mean == a / (255real * d),
            0real <= a <= 255real * d,
            1real <= d,
    ;
    lemma_rounded_means(m, k, w, h, rgba);
    lemma_read_level(m, k, coefficient(m, plane_a(m, rgba, n), w, h, 0, 0), mean, 15);
}

/// The alpha value that is read from the hash of an image is close to the average.
#[verifier::spinoff_prover]
proof fn lemma_rounded_alpha<N>(m: Model<N>, k: Meaning<N>, w: int, h: int, rgba: Seq<u8>)
    requires
        is_rounded(m, k),
        0 < w <= MAX_SIDE,
        0 < h <= MAX_SIDE,
    ensures
        is_near(
            k,
            average_a(m, thumb_hash(m, w, h, rgba)),
            mean_alpha(rgba, w * h),
            34real / 1000real,
        ),
        !has_alpha(rgba, w * h) ==> k.value(average_a(m, thumb_hash(m, w, h, rgba))) == 1real
            && mean_alpha(rgba, w * h) == 1real,
{
    let n = w * h;
    assert(0 < n <= 10000) by (nonlinear_arith)
        requires
            n == w * h,
            0 < w <= 100,
            0 < h <= 100,
    ;
    lemma_unit();
    rounded_averages_read_back(m, k, w, h, rgba);
    let d = n as real;
    let mean = mean_alpha(rgba, n);
    let a = alpha_sum(rgba, n) as real;
    lemma_has_alpha(rgba, n);
    lemma_weighted_sum_bounds(rgba, 0, n);
    assert(0real <= mean <= 1real && (a == 255real * d ==> mean == 1real)) by (nonlinear_arith)
        requires
            mean == a / (255real * d),
            0real <= a <= 255real * d,
            1real <= d,
    ;
    if has_alpha(rgba, n) {
        lemma_recorded_alpha(m, k, w, h, rgba);
        let dc = coefficient(m, plane_a(m, rgba, n), w, h, 0, 0);
        let level = quantized(m, dc, 15);
        lemma_ratio(m, k, level as int, 15);
        let x = level as real / 15real;
        assert(unit() * x <= unit()) by (nonlinear_arith)
            requires
                x <= 1real,
                unit() == 1real / 16777216real,
        ;
    } else {
        lemma_integer(m, k, 1);
    }
}

} // verus!
