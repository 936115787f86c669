//! The image that a hash is decoded to in an arithmetic that rounds.
use crate::arithmetic::Model;
use crate::color::{clamped, to_component, to_rgb};
use crate::decoder::{
    average_a, average_l, channel_of, chroma_scale, decoded_pixel, pixel_a, pixel_l, pixel_p,
    pixel_q, signed_average, size_of_hash,
};
use crate::fidelity::size;
use crate::geometry::{lemma_decoded_size, lemma_small_triangles, lemma_triangle_bounds, triangle};
use crate::header::{header_of, header_reread};
use crate::inverse::{dequantized, sample};
use crate::laws::lemma_triangle_sizes;
use crate::parts::{alpha_count, alpha_of, chroma_count, is_complete, luma_count, nibbles_of};
use crate::rounded::{
    is_bounded, is_near, is_rounded, lemma_integer, lemma_kept_integer, lemma_times, lemma_unit,
    micro, unit, Meaning,
};
use crate::rounded_average::lemma_rounded_signed;
use crate::rounded_color::lemma_ratio;
use crate::rounded_inverse::{are_near, rounded_sample_is_near, sample_error};
use vstd::prelude::*;

verus! {

/// The coefficient that a nibble stands for.
#[verifier::spinoff_prover]
proof fn lemma_near_dequantized<N>(m: Model<N>, k: Meaning<N>, bits: u8, scale: N, s: real)
    requires
        is_rounded(m, k),
        bits < 16,
        is_near(k, scale, s, micro(1)),
        0real <= s <= 5real / 4real,
    ensures
        is_near(k, dequantized(m, bits, scale), dequantized(k.exact, bits, s), micro(5)),
        size(dequantized(k.exact, bits, s)) <= s,
{
    lemma_unit();
    lemma_ratio(m, k, 15, 2);
    lemma_integer(m, k, bits as int);
    lemma_integer(m, k, 1);
    let t = k.value(m.ratio(15, 2));
    assert(unit() * (15real / 2real) == 15real / 33554432real) by (nonlinear_arith)
        requires
            unit() == 1real / 16777216real,
    ;
    let v = bits as real;
    let steps = m.over(m.from_int(bits as int), m.ratio(15, 2));
    let exact = v / (15real / 2real);
    assert(size(v / t - exact) <= micro(1) && size(v / t) <= 3real) by (nonlinear_arith)
        requires
            size(t - 15real / 2real) <= micro(1) / 2real,
            0real <= v <= 15real,
            exact == v / (15real / 2real),
            micro(1) == 1real / 1000000real,
    {
        assert(v / t - exact == v * (15real / 2real - t) / (t * (15real / 2real)));
        assert(t * (15real / 2real) >= 50real);
        assert(size(v * (15real / 2real - t)) <= 15real * (micro(1) / 2real));
    }
    assert(k.rounds(steps, v / t));
    assert(unit() * size(v / t) <= 3real * unit()) by (nonlinear_arith)
        requires
            size(v / t) <= 3real,
            unit() == 1real / 16777216real,
    ;
    let shifted = m.minus(steps, m.from_int(1));
    let x = exact - 1real;
    assert(0real <= exact <= 2real);
    let difference = k.value(steps) - 1real;
    assert(k.rounds(shifted, difference));
    assert(unit() * size(difference) <= 2real * unit()) by (nonlinear_arith)
        requires
            size(difference) <= 2real,
            unit() == 1real / 16777216real,
    ;
    assert(is_near(k, shifted, x, micro(2)));
    let p = k.value(shifted);
    let q = k.value(scale);
    lemma_times(m, k, shifted, scale, 11real / 10real, 13real / 10real);
    assert(size(p * q - x * s) <= 13real / 10real * micro(2) + micro(1) && size(x * s) <= s)
        by (nonlinear_arith)
        requires
            size(p - x) <= micro(2),
            size(q - s) <= micro(1),
            size(q) <= 13real / 10real,
            size(x) <= 1real,
            0real <= s,
    {
        assert(p * q - x * s == (p - x) * q + x * (q - s));
        assert(size((p - x) * q) <= micro(2) * (13real / 10real));
        assert(size(x * (q - s)) <= micro(1));
    }
    assert(k.exact.ratio(15, 2) == 15real / 2real);
}

/// A scale that is recorded on `steps` steps.
#[verifier::spinoff_prover]
proof fn lemma_near_share<N>(m: Model<N>, k: Meaning<N>, level: int, steps: int)
    requires
        is_rounded(m, k),
        0 <= level <= steps <= 63,
        1 <= steps,
    ensures
        is_near(k, m.ratio(level, steps), k.exact.ratio(level, steps), micro(1) / 4real),
        k.exact.ratio(level, steps) == level as real / (steps as real),
        0real <= k.exact.ratio(level, steps) <= 1real,
{
    lemma_unit();
    lemma_ratio(m, k, level, steps);
    let x = level as real / (steps as real);
    assert(0real <= x <= 1real) by (nonlinear_arith)
        requires
            x == level as real / (steps as real),
            0real <= level as real <= steps as real,
            1real <= steps as real,
    ;
    assert(unit() * x <= unit()) by (nonlinear_arith)
        requires
            x <= 1real,
            unit() == 1real / 16777216real,
    ;
}

/// The scale of a chroma channel.
#[verifier::spinoff_prover]
proof fn lemma_near_chroma_scale<N>(m: Model<N>, k: Meaning<N>, level: int)
    requires
        is_rounded(m, k),
        0 <= level <= 63,
    ensures
        is_near(k, chroma_scale(m, level), chroma_scale(k.exact, level), micro(1)),
        0real <= chroma_scale(k.exact, level) <= 5real / 4real,
        chroma_scale(k.exact, level) == level as real / 63real * (5real / 4real),
{
    lemma_unit();
    lemma_near_share(m, k, level, 63);
    lemma_ratio(m, k, 5, 4);
    assert(k.exact.ratio(5, 4) == 5real / 4real);
    let a = m.ratio(level, 63);
    let b = m.ratio(5, 4);
    let p = k.value(a);
    let q = k.value(b);
    let x = k.exact.ratio(level, 63);
    assert(unit() * (5real / 4real) <= 2real * unit()) by (nonlinear_arith)
        requires
            unit() == 1real / 16777216real,
    ;
    lemma_times(m, k, a, b, 11real / 10real, 13real / 10real);
    assert(size(p * q - x * (5real / 4real)) <= 13real / 10real * (micro(1) / 4real) + micro(1)
        / 4real) by (nonlinear_arith)
        requires
            size(p - x) <= micro(1) / 4real,
            size(q - 5real / 4real) <= micro(1) / 4real,
            size(q) <= 13real / 10real,
            size(x) <= 1real,
    {
        assert(p * q - x * (5real / 4real) == (p - x) * q + x * (q - 5real / 4real));
        assert(size((p - x) * q) <= micro(1) / 4real * (13real / 10real));
        assert(size(x * (q - 5real / 4real)) <= micro(1) / 4real);
    }
}

/// The coefficients of a channel.
proof fn lemma_near_channel<N>(
    m: Model<N>,
    k: Meaning<N>,
    hash: Seq<u8>,
    start: int,
    nx: int,
    ny: int,
    scale: N,
    s: real,
)
    requires
        is_rounded(m, k),
        is_complete(hash),
        3 <= nx <= 7,
        3 <= ny <= 7,
        0 <= start,
        start + triangle(nx, ny).len() - 1 <= nibbles_of(hash).len(),
        is_near(k, scale, s, micro(1)),
        0real <= s <= 5real / 4real,
    ensures
        are_near(
            k,
            triangle(nx, ny).drop_first(),
            channel_of(m, hash, start, triangle(nx, ny).len() - 1, scale),
            channel_of(k.exact, hash, start, triangle(nx, ny).len() - 1, s),
            s,
        ),
{
    let n = triangle(nx, ny).len() - 1;
    let list = triangle(nx, ny).drop_first();
    let nibbles = nibbles_of(hash).subrange(start, start + n);
    let ac = channel_of(m, hash, start, n, scale);
    let exact = channel_of(k.exact, hash, start, n, s);
    lemma_triangle_sizes(nx, ny);
    lemma_triangle_bounds(nx, ny);
    assert forall|j: int| 0 <= j < list.len() implies (#[trigger] list[j]).0 <= 6 && list[j].1
        <= 6 by {
        assert(list[j] == triangle(nx, ny)[j + 1]);
    }
    assert forall|j: int| 0 <= j < n implies nibbles[j] < 16 && is_near(
        k,
        #[trigger] ac[j],
        exact[j],
        micro(5),
    ) && size(exact[j]) <= s by {
        assert(nibbles[j] == nibbles_of(hash)[start + j]);
        lemma_near_dequantized(m, k, nibbles[j], scale, s);
    }
    assert forall|j: int| 0 <= j < n implies size(#[trigger] exact[j]) <= s by {
        assert(is_near(k, ac[j], exact[j], micro(5)));
    }
}

/// The luminance of the pixels that a hash is decoded to, in rounded arithmetic: the exact one up
/// to what each coefficient adds, which is in proportion to the scale that the hash records.
pub proof fn rounded_pixel_l<N>(m: Model<N>, k: Meaning<N>, hash: Seq<u8>, x: int, y: int)
    requires
        is_rounded(m, k),
        is_complete(hash),
        0 <= x < size_of_hash(hash).0,
        0 <= y < size_of_hash(hash).1,
    ensures
        ({
            let header = header_of(hash);
            let s = header.l_scale as real / 31real;
            &&& is_near(
                k,
                pixel_l(m, hash, x, y),
                pixel_l(k.exact, hash, x, y),
                luma_count(header) as real * sample_error(s) + micro(80),
            )
            &&& size(pixel_l(k.exact, hash, x, y)) <= 1real + 2real * (luma_count(header) as real
                * s)
            &&& luma_count(header) <= 27
            &&& 0real <= s <= 1real
        }),
{
    let header = header_of(hash);
    header_reread(hash);
    let (nx, ny) = header.components();
    let (w, h) = size_of_hash(hash);
    lemma_decoded_size(header.aspect().0, header.aspect().1);
    lemma_triangle_sizes(nx, ny);
    lemma_small_triangles();
    let scale = m.ratio(header.l_scale as int, 31);
    let s = k.exact.ratio(header.l_scale as int, 31);
    lemma_near_share(m, k, header.l_scale as int, 31);
    lemma_near_share(m, k, header.l_dc as int, 63);
    lemma_near_channel(m, k, hash, 0, nx, ny, scale, s);
    rounded_sample_is_near(
        m,
        k,
        average_l(m, header),
        average_l(k.exact, header),
        channel_of(m, hash, 0, luma_count(header), scale),
        channel_of(k.exact, hash, 0, luma_count(header), s),
        s,
        nx,
        ny,
        w,
        h,
        x,
        y,
    );
}

/// A chroma value of a pixel.
proof fn lemma_near_chroma<N>(
    m: Model<N>,
    k: Meaning<N>,
    hash: Seq<u8>,
    dc: int,
    level: int,
    start: int,
    x: int,
    y: int,
)
    requires
        is_rounded(m, k),
        is_complete(hash),
        0 <= x < size_of_hash(hash).0,
        0 <= y < size_of_hash(hash).1,
        0 <= dc <= 63,
        0 <= level <= 63,
        0 <= start,
        start + chroma_count() <= nibbles_of(hash).len(),
    ensures
        ({
            let (w, h) = size_of_hash(hash);
            let scale = chroma_scale(m, level);
            let s = level as real / 63real * (5real / 4real);
            let ac = channel_of(m, hash, start, chroma_count(), scale);
            let exact_scale = chroma_scale(k.exact, level);
            let exact = channel_of(k.exact, hash, start, chroma_count(), exact_scale);
            let value = sample(k.exact, signed_average(k.exact, dc), exact, 3, 3, w, h, x, y);
            &&& is_near(
                k,
                sample(m, signed_average(m, dc), ac, 3, 3, w, h, x, y),
                value,
                5real * sample_error(s) + micro(80),
            )
            &&& size(value) <= 1real + 10real * s
            &&& 0real <= s <= 5real / 4real
        }),
{
    let (w, h) = size_of_hash(hash);
    let header = header_of(hash);
    header_reread(hash);
    lemma_decoded_size(header.aspect().0, header.aspect().1);
    lemma_small_triangles();
    lemma_near_chroma_scale(m, k, level);
    let scale = chroma_scale(m, level);
    let s = chroma_scale(k.exact, level);
    lemma_near_channel(m, k, hash, start, 3, 3, scale, s);
    lemma_rounded_signed(m, k, dc);
    assert(k.exact.ratio(63, 2) == 63real / 2real);
    let exact_dc = signed_average(k.exact, dc);
    assert(exact_dc == dc as real / (63real / 2real) - 1real);
    rounded_sample_is_near(
        m,
        k,
        signed_average(m, dc),
        exact_dc,
        channel_of(m, hash, start, chroma_count(), scale),
        channel_of(k.exact, hash, start, chroma_count(), s),
        s,
        3,
        3,
        w,
        h,
        x,
        y,
    );
}

/// The chroma values of the pixels that a hash is decoded to, in rounded arithmetic: the exact
/// ones up to what each of the five coefficients adds, which is in proportion to the scale that
/// the hash records.
pub proof fn rounded_pixel_pq<N>(m: Model<N>, k: Meaning<N>, hash: Seq<u8>, x: int, y: int)
    requires
        is_rounded(m, k),
        is_complete(hash),
        0 <= x < size_of_hash(hash).0,
        0 <= y < size_of_hash(hash).1,
    ensures
        ({
            let header = header_of(hash);
            let s = header.p_scale as real / 63real * (5real / 4real);
            let t = header.q_scale as real / 63real * (5real / 4real);
            &&& is_near(
                k,
                pixel_p(m, hash, x, y),
                pixel_p(k.exact, hash, x, y),
                5real * sample_error(s) + micro(80),
            )
            &&& is_near(
                k,
                pixel_q(m, hash, x, y),
                pixel_q(k.exact, hash, x, y),
                5real * sample_error(t) + micro(80),
            )
            &&& size(pixel_p(k.exact, hash, x, y)) <= 1real + 10real * s
            &&& size(pixel_q(k.exact, hash, x, y)) <= 1real + 10real * t
            &&& 0real <= s <= 5real / 4real
            &&& 0real <= t <= 5real / 4real
        }),
{
    let header = header_of(hash);
    header_reread(hash);
    lemma_small_triangles();
    lemma_triangle_sizes(header.components().0, header.components().1);
    lemma_near_chroma(
        m,
        k,
        hash,
        header.p_dc as int,
        header.p_scale as int,
        luma_count(header),
        x,
        y,
    );
    lemma_near_chroma(
        m,
        k,
        hash,
        header.q_dc as int,
        header.q_scale as int,
        luma_count(header) + chroma_count(),
        x,
        y,
    );
}

/// The alpha values of the pixels that a hash is decoded to, in rounded arithmetic: the exact ones
/// up to what each of the 14 coefficients adds, which is in proportion to the scale that the hash
/// records, and one where there is no alpha channel.
pub proof fn rounded_pixel_a<N>(m: Model<N>, k: Meaning<N>, hash: Seq<u8>, x: int, y: int)
    requires
        is_rounded(m, k),
        is_complete(hash),
        0 <= x < size_of_hash(hash).0,
        0 <= y < size_of_hash(hash).1,
    ensures
        match alpha_of(hash) {
            Some((_, scale)) => {
                let s = scale as real / 15real;
                &&& is_near(
                    k,
                    pixel_a(m, hash, x, y),
                    pixel_a(k.exact, hash, x, y),
                    14real * sample_error(s) + micro(80),
                )
                &&& 0real <= s <= 1real
            },
            None => is_near(k, pixel_a(m, hash, x, y), 1real, 0real) && pixel_a(
                k.exact,
                hash,
                x,
                y,
            ) == 1real,
        },
{
    let header = header_of(hash);
    header_reread(hash);
    lemma_integer(m, k, 1);
    if let Some((dc, level)) = alpha_of(hash) {
        let (w, h) = size_of_hash(hash);
        lemma_decoded_size(header.aspect().0, header.aspect().1);
        lemma_small_triangles();
        lemma_triangle_sizes(header.components().0, header.components().1);
        lemma_near_share(m, k, level as int, 15);
        lemma_near_share(m, k, dc as int, 15);
        let start = luma_count(header) + 2 * chroma_count();
        let scale = m.ratio(level as int, 15);
        let s = k.exact.ratio(level as int, 15);
        lemma_near_channel(m, k, hash, start, 5, 5, scale, s);
        rounded_sample_is_near(
            m,
            k,
            average_a(m, hash),
            average_a(k.exact, hash),
            channel_of(m, hash, start, alpha_count(), scale),
            channel_of(k.exact, hash, start, alpha_count(), s),
            s,
            5,
            5,
            w,
            h,
            x,
            y,
        );
    }
}

/// What is lost of a number of magnitude `bound` at most.
#[verifier::spinoff_prover]
proof fn lemma_loss(a: real, bound: real)
    requires
        size(a) <= bound,
    ensures
        unit() * size(a) <= bound / 16777216real,
{
    assert(unit() * size(a) <= bound / 16777216real) by (nonlinear_arith)
        requires
            size(a) <= bound,
            unit() == 1real / 16777216real,
    ;
}

/// A sum of magnitude `bound` at most.
proof fn lemma_plus<N>(m: Model<N>, k: Meaning<N>, a: N, b: N, bound: real)
    requires
        is_rounded(m, k),
        k.finite(a),
        k.finite(b),
        size(k.value(a) + k.value(b)) <= bound,
        1real <= bound <= 1000real,
    ensures
        is_near(k, m.plus(a, b), k.value(a) + k.value(b), bound / 10000000real),
{
    lemma_unit();
    lemma_loss(k.value(a) + k.value(b), bound);
    assert(k.rounds(m.plus(a, b), k.value(a) + k.value(b)));
}

/// A difference of magnitude `bound` at most.
proof fn lemma_minus<N>(m: Model<N>, k: Meaning<N>, a: N, b: N, bound: real)
    requires
        is_rounded(m, k),
        k.finite(a),
        k.finite(b),
        size(k.value(a) - k.value(b)) <= bound,
        1real <= bound <= 1000real,
    ensures
        is_near(k, m.minus(a, b), k.value(a) - k.value(b), bound / 10000000real),
{
    lemma_unit();
    lemma_loss(k.value(a) - k.value(b), bound);
    assert(k.rounds(m.minus(a, b), k.value(a) - k.value(b)));
}

/// Half of a number of magnitude `bound` at most.
proof fn lemma_halved<N>(m: Model<N>, k: Meaning<N>, a: N, bound: real)
    requires
        is_rounded(m, k),
        is_bounded(k, a, bound),
        1real <= bound <= 1000real,
    ensures
        is_near(k, m.over(a, m.from_int(2)), k.value(a) / 2real, bound / 10000000real),
{
    lemma_unit();
    lemma_integer(m, k, 2);
    lemma_loss(k.value(a) / 2real, bound);
    assert(k.rounds(m.over(a, m.from_int(2)), k.value(a) / 2real));
}

/// The blue part of a chroma value, and three times a luminance.
#[verifier::spinoff_prover]
proof fn lemma_parts_of_rgb<N>(m: Model<N>, k: Meaning<N>, l: N, p: N)
    requires
        is_rounded(m, k),
        is_bounded(k, l, 56real),
        is_bounded(k, p, 14real),
    ensures
        is_near(k, m.times(m.ratio(2, 3), p), 2real / 3real * k.value(p), micro(3)),
        is_near(k, m.times(m.from_int(3), l), 3real * k.value(l), micro(11)),
{
    lemma_unit();
    lemma_ratio(m, k, 2, 3);
    lemma_integer(m, k, 3);
    let u = unit();
    let y = k.value(p);
    let share = m.ratio(2, 3);
    let a = k.value(share);
    assert(u * (2real / 3real) <= u) by (nonlinear_arith)
        requires
            u == 1real / 16777216real,
    ;
    lemma_times(m, k, share, p, 1real, 14real);
    assert(size(a * y - 2real / 3real * y) <= 28real * u) by (nonlinear_arith)
        requires
            size(a - 2real / 3real) <= 2real * u,
            size(y) <= 14real,
    {
        assert(a * y - 2real / 3real * y == (a - 2real / 3real) * y);
    }
    lemma_times(m, k, m.from_int(3), l, 3real, 56real);
}

/// What is lost when a colour is computed from its luminance and its two chroma values.
proof fn lemma_rgb_of_values<N>(m: Model<N>, k: Meaning<N>, l: N, p: N, q: N)
    requires
        is_rounded(m, k),
        is_bounded(k, l, 56real),
        is_bounded(k, p, 14real),
        is_bounded(k, q, 14real),
    ensures
        ({
            let (x, y, z) = (k.value(l), k.value(p), k.value(q));
            &&& is_near(k, to_rgb(m, l, p, q).r, x + y / 3real + z / 2real, micro(100))
            &&& is_near(k, to_rgb(m, l, p, q).g, x + y / 3real - z / 2real, micro(120))
            &&& is_near(k, to_rgb(m, l, p, q).b, x - 2real / 3real * y, micro(10))
        }),
{
    let (x, y, z) = (k.value(l), k.value(p), k.value(q));
    lemma_parts_of_rgb(m, k, l, p);
    let part = m.times(m.ratio(2, 3), p);
    let triple = m.times(m.from_int(3), l);
    let b = m.minus(l, part);
    assert(is_near(k, b, x - 2real / 3real * y, micro(10))) by {
        lemma_minus(m, k, l, part, 70real);
    }
    let rest = m.minus(triple, b);
    assert(is_near(k, rest, 2real * x + 2real / 3real * y, micro(50))) by {
        lemma_minus(m, k, triple, b, 240real);
    }
    let twice = m.plus(rest, q);
    assert(is_near(k, twice, 2real * x + 2real / 3real * y + z, micro(80))) by {
        lemma_plus(m, k, rest, q, 260real);
    }
    let r = m.over(twice, m.from_int(2));
    assert(is_near(k, r, x + y / 3real + z / 2real, micro(100))) by {
        lemma_halved(m, k, twice, 260real);
    }
    assert(is_near(k, m.minus(r, q), x + y / 3real - z / 2real, micro(120))) by {
        lemma_minus(m, k, r, q, 150real);
    }
}

/// The components that two numbers, close to each other, are decoded to.
proof fn lemma_near_component<N>(m: Model<N>, k: Meaning<N>, a: N, x: real, t: real, n: int)
    requires
        is_rounded(m, k),
        is_near(k, a, x, t),
        255real * t + 1real / 1000real <= n as real,
    ensures
        -n <= to_component(m, a) - to_component(k.exact, x) <= n,
{
    lemma_unit();
    lemma_integer(m, k, 0);
    lemma_integer(m, k, 1);
    lemma_integer(m, k, 255);
    lemma_kept_integer(m, k, 0);
    lemma_kept_integer(m, k, 255);
    let c = clamped(m, a);
    let v = k.value(c);
    let d = clamped(k.exact, x);
    assert(0real <= v <= 1real && 0real <= d <= 1real && size(v - d) <= t);
    let exact = v * 255real;
    lemma_loss(exact, 255real);
    let product = m.times(c, m.from_int(255));
    assert(k.rounds(product, exact));
    assert(k.order_rule(0real, exact) && k.order_rule(exact, 255real));
    assert(k.exact.times(d, 255real) == d * 255real);
    assert(0real <= k.value(product) <= 255real);
    let i = m.truncate(product);
    let j = k.exact.truncate(d * 255real);
    assert(i as real <= k.value(product) < i as real + 1real);
    assert(j as real <= d * 255real < j as real + 1real);
    assert(size(k.value(product) - d * 255real) < n as real);
    assert(i as int - j as int <= n && j as int - i as int <= n);
}

/// The colour of a pixel, where its channel values are close to the exact ones.
proof fn lemma_near_rgb<N>(
    m: Model<N>,
    k: Meaning<N>,
    l: N,
    x: real,
    p: N,
    y: real,
    q: N,
    z: real,
)
    requires
        is_rounded(m, k),
        is_near(k, l, x, 355real / 10000real),
        is_near(k, p, y, 83real / 10000real),
        is_near(k, q, z, 83real / 10000real),
        size(x) <= 55real,
        size(y) <= 135real / 10real,
        size(z) <= 135real / 10real,
    ensures
        ({
            let rgb = to_rgb(m, l, p, q);
            let exact = to_rgb(k.exact, x, y, z);
            let t = 426real / 10000real;
            &&& is_near(k, rgb.r, exact.r, t)
            &&& is_near(k, rgb.g, exact.g, t)
            &&& is_near(k, rgb.b, exact.b, t)
        }),
{
    lemma_rgb_of_values(m, k, l, p, q);
    let exact = to_rgb(k.exact, x, y, z);
    assert(exact.b == x - 2real / 3real * y && exact.r == x + y / 3real + z / 2real && exact.g == x
        + y / 3real - z / 2real) by {
        assert(k.exact.ratio(2, 3) == 2real / 3real);
        assert(k.exact.times(3real, x) == 3real * x);
    }
}

/// The channel values of a pixel, within bounds that do not depend on what the hash records.
#[verifier::spinoff_prover]
proof fn lemma_near_values<N>(m: Model<N>, k: Meaning<N>, hash: Seq<u8>, x: int, y: int)
    requires
        is_rounded(m, k),
        is_complete(hash),
        0 <= x < size_of_hash(hash).0,
        0 <= y < size_of_hash(hash).1,
    ensures
        is_near(k, pixel_l(m, hash, x, y), pixel_l(k.exact, hash, x, y), 355real / 10000real),
        is_near(k, pixel_p(m, hash, x, y), pixel_p(k.exact, hash, x, y), 83real / 10000real),
        is_near(k, pixel_q(m, hash, x, y), pixel_q(k.exact, hash, x, y), 83real / 10000real),
        is_near(k, pixel_a(m, hash, x, y), pixel_a(k.exact, hash, x, y), 185real / 10000real),
        size(pixel_l(k.exact, hash, x, y)) <= 55real,
        size(pixel_p(k.exact, hash, x, y)) <= 135real / 10real,
        size(pixel_q(k.exact, hash, x, y)) <= 135real / 10real,
{
    rounded_pixel_l(m, k, hash, x, y);
    rounded_pixel_pq(m, k, hash, x, y);
    rounded_pixel_a(m, k, hash, x, y);
    let header = header_of(hash);
    let n = luma_count(header) as real;
    let s = header.l_scale as real / 31real;
    let e = sample_error(s);
    assert(n * e <= 27real * e && n * s <= 27real) by (nonlinear_arith)
        requires
            n <= 27real,
            0real <= e,
            0real <= s <= 1real,
    ;
}

/// In rounded arithmetic every pixel that a hash is decoded to differs from that of exact
/// arithmetic by 11 at most in red, green and blue and by 5 at most in alpha, which is the same
/// where there is no alpha channel.
pub proof fn rounded_decoded_pixel<N>(m: Model<N>, k: Meaning<N>, hash: Seq<u8>, x: int, y: int)
    requires
        is_rounded(m, k),
        is_complete(hash),
        0 <= x < size_of_hash(hash).0,
        0 <= y < size_of_hash(hash).1,
    ensures
        ({
            let pixel = decoded_pixel(m, hash, x, y);
            let exact = decoded_pixel(k.exact, hash, x, y);
            &&& -11 <= pixel[0] - exact[0] <= 11
            &&& -11 <= pixel[1] - exact[1] <= 11
            &&& -11 <= pixel[2] - exact[2] <= 11
            &&& -5 <= pixel[3] - exact[3] <= 5
            &&& !header_of(hash).has_alpha ==> pixel[3] == 255 && exact[3] == 255
        }),
{
    lemma_near_values(m, k, hash, x, y);
    let (l, p, q, a) = (
        pixel_l(m, hash, x, y),
        pixel_p(m, hash, x, y),
        pixel_q(m, hash, x, y),
        pixel_a(m, hash, x, y),
    );
    let (xl, xp, xq, xa) = (
        pixel_l(k.exact, hash, x, y),
        pixel_p(k.exact, hash, x, y),
        pixel_q(k.exact, hash, x, y),
        pixel_a(k.exact, hash, x, y),
    );
    lemma_near_rgb(m, k, l, xl, p, xp, q, xq);
    let rgb = to_rgb(m, l, p, q);
    let exact = to_rgb(k.exact, xl, xp, xq);
    let t = 426real / 10000real;
    lemma_near_component(m, k, rgb.r, exact.r, t, 11);
    lemma_near_component(m, k, rgb.g, exact.g, t, 11);
    lemma_near_component(m, k, rgb.b, exact.b, t, 11);
    lemma_near_component(m, k, a, xa, 185real / 10000real, 5);
    if alpha_of(hash) is None {
        lemma_full_component(m, k);
        assert(k.exact.from_int(1) == 1real);
    }
}

/// One is decoded to the largest component.
#[verifier::spinoff_prover]
proof fn lemma_full_component<N>(m: Model<N>, k: Meaning<N>)
    requires
        is_rounded(m, k),
    ensures
        to_component(m, m.from_int(1)) == 255,
        to_component(k.exact, 1real) == 255,
{
    lemma_integer(m, k, 0);
    lemma_integer(m, k, 1);
    lemma_integer(m, k, 255);
    lemma_kept_integer(m, k, 255);
    let one = clamped(m, m.from_int(1));
    let most = m.from_int(255);
    assert(k.value(one) * k.value(most) == 255real) by (nonlinear_arith)
        requires
            k.value(one) == 1real,
            k.value(most) == 255real,
    ;
    assert(k.rounds(m.times(one, most), 255real));
    assert(k.exact.times(1real, 255real) == 255real);
}

} // verus!
