//! Images of one colour, in an arithmetic that rounds.
use crate::arithmetic::Model;
use crate::color::{
    clamped, component, has_alpha, pixel_lpqa, plane_a, plane_l, plane_p, plane_q, to_component,
    to_rgb,
};
use crate::cosine::cosine;
use crate::decoder::{
    average_a, average_l, average_rgba, channel_of, chroma_scale, decoded_pixel, decoded_rgba,
    pixel_a, pixel_l, pixel_p, pixel_q, signed_average, size_of_hash,
};
use crate::encoder::{quantized, thumb_hash, used_luma};
use crate::exact::{half, lemma_sum_eq, lemma_sum_scale, lemma_sum_zero, sum};
use crate::fidelity::{lemma_real_product, size};
use crate::forward::{channel_scale, coefficient, other_coefficients};
use crate::geometry::{
    lemma_decoded_size, lemma_luma_extent, lemma_small_triangles, lemma_triangle_bounds,
    lemma_triangle_first, luma_limit, max_of, triangle, MAX_SIDE,
};
use crate::header::header_of;
use crate::inverse::{dequantized, frequency_sum, partial_sample, sample};
use crate::laws::coefficients_are_in_order;
use crate::parts::{alpha_of, chroma_count, is_complete, luma_count, nibbles_of};
use crate::rounded::{
    is_bounded, is_rounded, lemma_integer, lemma_kept_integer, lemma_times, lemma_unit, micro, unit,
    Meaning,
};
use crate::rounded_average::{
    lemma_rounded_signed, rounded_average_is_close, rounded_averages_read_back,
};
use crate::rounded_color::{channel_values_are_near, lemma_ratio};
use crate::rounded_cosine::{cosines_are_bounded, cosines_are_near};
use crate::rounded_forward::{
    exact_column, exact_total, lemma_near_coefficient, lemma_rounded_magnitude, lemma_sum_near,
};
use crate::rounded_hash::rounded_hash_decodes;
use crate::solid::{
    average_pixel, has_zero_scales, is_solid, lemma_cosines_cancel, lemma_solid_means, whole_part,
};
use vstd::arithmetic::div_mod::{lemma_fundamental_div_mod, lemma_mod_bound};
use vstd::prelude::*;

verus! {

/// Whether `a` stands for zero.
spec fn is_zero<N>(k: Meaning<N>, a: N) -> bool {
    k.finite(a) && k.value(a) == 0real
}

/// Whether `a` and `b` stand for the same number, of magnitude `bound` at most.
spec fn are_same<N>(k: Meaning<N>, a: N, b: N, bound: real) -> bool {
    is_bounded(k, a, bound) && k.finite(b) && k.value(a) == k.value(b)
}

#[verifier::spinoff_prover]
proof fn lemma_zero_product<N>(m: Model<N>, k: Meaning<N>, a: N, b: N, bound: real)
    requires
        is_rounded(m, k),
        is_zero(k, a),
        is_bounded(k, b, bound),
        bound <= 1000real,
    ensures
        is_zero(k, m.times(a, b)),
        is_zero(k, m.times(b, a)),
{
    let y = k.value(b);
    assert(0real * y == 0real && y * 0real == 0real) by (nonlinear_arith);
    lemma_kept_integer(m, k, 0);
    assert(k.rounds(m.times(a, b), 0real));
    assert(k.rounds(m.times(b, a), 0real));
}

proof fn lemma_zero_sum<N>(m: Model<N>, k: Meaning<N>, a: N, b: N, bound: real)
    requires
        is_rounded(m, k),
        is_bounded(k, a, bound),
        is_zero(k, b),
        bound <= 1000real,
    ensures
        are_same(k, a, m.plus(a, b), bound),
{
    assert(k.keeps(a));
    assert(k.rounds(m.plus(a, b), k.value(a)));
}

/// With a scale of zero every nibble stands for zero.
#[verifier::spinoff_prover]
proof fn lemma_zero_coefficient<N>(m: Model<N>, k: Meaning<N>, bits: u8, scale: N)
    requires
        is_rounded(m, k),
        is_zero(k, scale),
    ensures
        is_zero(k, dequantized(m, bits, scale)),
{
    lemma_unit();
    lemma_ratio(m, k, 15, 2);
    lemma_integer(m, k, bits as int);
    lemma_integer(m, k, 1);
    let half_range = m.ratio(15, 2);
    let t = k.value(half_range);
    assert(unit() * (15real / 2real) <= 8real * unit()) by (nonlinear_arith)
        requires
            unit() == 1real / 16777216real,
    ;
    let v = bits as real;
    assert(size(v / t) <= 100real) by (nonlinear_arith)
        requires
            7real <= t,
            0real <= v <= 255real,
    ;
    let steps = m.over(m.from_int(bits as int), half_range);
    assert(k.rounds(steps, v / t));
    assert(unit() * size(v / t) <= 100real * unit()) by (nonlinear_arith)
        requires
            size(v / t) <= 100real,
            unit() == 1real / 16777216real,
    ;
    let exact = k.value(steps) - 1real;
    let signed = m.minus(steps, m.from_int(1));
    assert(k.rounds(signed, exact));
    assert(unit() * size(exact) <= 200real * unit()) by (nonlinear_arith)
        requires
            size(exact) <= 200real,
            unit() == 1real / 16777216real,
    ;
    lemma_zero_product(m, k, scale, signed, 300real);
}

/// Coefficients that stand for zero add up to zero.
proof fn lemma_zero_frequency_sum<N>(
    m: Model<N>,
    k: Meaning<N>,
    list: Seq<(usize, usize)>,
    ac: Seq<N>,
    w: int,
    cy: int,
    x: int,
    j: int,
)
    requires
        is_rounded(m, k),
        0 <= x < w <= 100,
        0 <= j <= list.len(),
        forall|i: int| 0 <= i < j ==> is_zero(k, #[trigger] ac[i]),
        forall|i: int| 0 <= i < j ==> (#[trigger] list[i]).0 <= 6,
    ensures
        is_zero(k, frequency_sum(m, list, ac, w, cy, x, j)),
    decreases j,
{
    if j > 0 {
        lemma_zero_frequency_sum(m, k, list, ac, w, cy, x, j - 1);
        let cos = cosine(m, w, list[j - 1].0 as int, x);
        cosines_are_bounded(m, k, w, list[j - 1].0 as int, x);
        lemma_zero_product(m, k, ac[j - 1], cos, 2real);
        let before = frequency_sum(m, list, ac, w, cy, x, j - 1);
        lemma_zero_sum(m, k, before, m.times(ac[j - 1], cos), 0real);
    } else {
        lemma_integer(m, k, 0);
    }
}

/// A channel whose coefficients stand for zero has the average everywhere.
proof fn lemma_zero_partial_sample<N>(
    m: Model<N>,
    k: Meaning<N>,
    dc: N,
    list: Seq<(usize, usize)>,
    ac: Seq<N>,
    w: int,
    h: int,
    x: int,
    y: int,
    cy: int,
)
    requires
        is_rounded(m, k),
        is_bounded(k, dc, 3real),
        0 <= x < w <= 100,
        0 <= y < h <= 100,
        0 <= cy <= 7,
        forall|i: int| 0 <= i < list.len() ==> is_zero(k, #[trigger] ac[i]),
        forall|i: int| 0 <= i < list.len() ==> (#[trigger] list[i]).0 <= 6,
    ensures
        are_same(k, dc, partial_sample(m, dc, list, ac, w, h, x, y, cy), 3real),
    decreases cy,
{
    if cy > 0 {
        lemma_unit();
        lemma_zero_partial_sample(m, k, dc, list, ac, w, h, x, y, cy - 1);
        lemma_zero_frequency_sum(m, k, list, ac, w, cy - 1, x, list.len() as int);
        cosines_are_bounded(m, k, h, cy - 1, y);
        lemma_integer(m, k, 2);
        let cos = cosine(m, h, cy - 1, y);
        lemma_times(m, k, cos, m.from_int(2), 2real, 2real);
        let sum = frequency_sum(m, list, ac, w, cy - 1, x, list.len() as int);
        lemma_zero_product(m, k, sum, m.times(cos, m.from_int(2)), 5real);
        let before = partial_sample(m, dc, list, ac, w, h, x, y, cy - 1);
        lemma_zero_sum(m, k, before, m.times(sum, m.times(cos, m.from_int(2))), 3real);
    }
}

/// With a scale of zero a channel has the average everywhere.
proof fn lemma_flat_channel<N>(
    m: Model<N>,
    k: Meaning<N>,
    hash: Seq<u8>,
    dc: N,
    start: int,
    scale: N,
    nx: int,
    ny: int,
    x: int,
    y: int,
)
    requires
        is_rounded(m, k),
        is_bounded(k, dc, 3real),
        is_zero(k, scale),
        1 <= nx <= 7,
        1 <= ny <= 7,
        0 <= start,
        start + triangle(nx, ny).len() - 1 <= nibbles_of(hash).len(),
        0 <= x < size_of_hash(hash).0 <= 100,
        0 <= y < size_of_hash(hash).1 <= 100,
    ensures
        ({
            let (w, h) = size_of_hash(hash);
            let n = triangle(nx, ny).len() - 1;
            are_same(
                k,
                dc,
                sample(m, dc, channel_of(m, hash, start, n, scale), nx, ny, w, h, x, y),
                3real,
            )
        }),
{
    let (w, h) = size_of_hash(hash);
    let all = triangle(nx, ny);
    let list = all.drop_first();
    let n = all.len() - 1;
    lemma_triangle_first(nx, ny);
    lemma_triangle_bounds(nx, ny);
    let ac = channel_of(m, hash, start, n, scale);
    assert forall|i: int| 0 <= i < list.len() implies is_zero(k, #[trigger] ac[i]) by {
        let bits = nibbles_of(hash).subrange(start, start + n)[i];
        lemma_zero_coefficient(m, k, bits, scale);
    }
    assert forall|i: int| 0 <= i < list.len() implies (#[trigger] list[i]).0 <= 6 by {
        assert(list[i] == all[i + 1]);
    }
    lemma_zero_partial_sample(m, k, dc, list, ac, w, h, x, y, ny);
}

/// The colours of channel values that stand for the same numbers stand for the same numbers.
#[verifier::spinoff_prover]
proof fn lemma_same_rgb<N>(m: Model<N>, k: Meaning<N>, l: N, p: N, q: N, a: N, b: N, c: N)
    requires
        is_rounded(m, k),
        are_same(k, l, a, 3real),
        are_same(k, p, b, 3real),
        are_same(k, q, c, 3real),
    ensures
        are_same(k, to_rgb(m, l, p, q).r, to_rgb(m, a, b, c).r, 1000real),
        are_same(k, to_rgb(m, l, p, q).g, to_rgb(m, a, b, c).g, 1000real),
        are_same(k, to_rgb(m, l, p, q).b, to_rgb(m, a, b, c).b, 1000real),
{
    lemma_unit();
    lemma_ratio(m, k, 2, 3);
    lemma_integer(m, k, 3);
    lemma_integer(m, k, 2);
    let share = m.ratio(2, 3);
    assert(unit() * (2real / 3real) <= unit()) by (nonlinear_arith)
        requires
            unit() == 1real / 16777216real,
    ;
    lemma_times(m, k, share, p, 1real, 3real);
    lemma_times(m, k, share, b, 1real, 3real);
    let part = m.times(share, p);
    let other_part = m.times(share, b);
    assert(k.rounds(part, k.value(share) * k.value(p)));
    assert(k.rounds(other_part, k.value(share) * k.value(b)));
    assert(are_same(k, part, other_part, 4real));
    lemma_same_minus(m, k, l, part, a, other_part, 4real);
    let blue = m.minus(l, part);
    let other_blue = m.minus(a, other_part);
    lemma_times(m, k, m.from_int(3), l, 3real, 3real);
    lemma_times(m, k, m.from_int(3), a, 3real, 3real);
    let triple = m.times(m.from_int(3), l);
    let other_triple = m.times(m.from_int(3), a);
    assert(k.rounds(triple, k.value(m.from_int(3)) * k.value(l)));
    assert(k.rounds(other_triple, k.value(m.from_int(3)) * k.value(a)));
    assert(are_same(k, triple, other_triple, 10real));
    lemma_same_minus(m, k, triple, blue, other_triple, other_blue, 10real);
    let rest = m.minus(triple, blue);
    let other_rest = m.minus(other_triple, other_blue);
    let twice = m.plus(rest, q);
    let other_twice = m.plus(other_rest, c);
    let sum = k.value(rest) + k.value(q);
    assert(k.rounds(twice, sum));
    assert(k.rounds(other_twice, sum));
    assert(unit() * size(sum) <= 100real * unit()) by (nonlinear_arith)
        requires
            size(sum) <= 100real,
            unit() == 1real / 16777216real,
    ;
    assert(are_same(k, twice, other_twice, 50real));
    let r = m.over(twice, m.from_int(2));
    let other_r = m.over(other_twice, m.from_int(2));
    let quotient = k.value(twice) / 2real;
    assert(k.rounds(r, quotient));
    assert(k.rounds(other_r, quotient));
    assert(unit() * size(quotient) <= 100real * unit()) by (nonlinear_arith)
        requires
            size(quotient) <= 100real,
            unit() == 1real / 16777216real,
    ;
    assert(are_same(k, r, other_r, 50real));
    lemma_same_minus(m, k, r, q, other_r, c, 50real);
}

#[verifier::spinoff_prover]
proof fn lemma_same_minus<N>(m: Model<N>, k: Meaning<N>, a: N, b: N, c: N, d: N, bound: real)
    requires
        is_rounded(m, k),
        are_same(k, a, c, bound),
        are_same(k, b, d, bound),
        1real <= bound <= 100real,
    ensures
        are_same(k, m.minus(a, b), m.minus(c, d), 2real * bound + 1real),
{
    lemma_unit();
    let exact = k.value(a) - k.value(b);
    assert(k.rounds(m.minus(a, b), exact));
    assert(k.rounds(m.minus(c, d), exact));
    assert(unit() * size(exact) <= 200real * unit()) by (nonlinear_arith)
        requires
            size(exact) <= 200real,
            unit() == 1real / 16777216real,
    ;
}

/// Numbers that stand for the same number are decoded to the same component.
proof fn lemma_same_component<N>(m: Model<N>, k: Meaning<N>, a: N, b: N)
    requires
        is_rounded(m, k),
        are_same(k, a, b, 1000real),
    ensures
        to_component(m, b) == whole_part(m, clamped(m, a)),
        0real <= k.value(clamped(m, a)) <= 1real,
        0real <= k.value(a) <= 1real ==> to_component(m, b) == whole_part(m, a),
{
    lemma_integer(m, k, 0);
    lemma_integer(m, k, 1);
    let u = clamped(m, a);
    let v = clamped(m, b);
    assert(k.value(u) == k.value(v));
    lemma_same_part(m, k, u, v);
    if 0real <= k.value(a) <= 1real {
        lemma_same_part(m, k, a, v);
    }
}

#[verifier::spinoff_prover]
proof fn lemma_same_part<N>(m: Model<N>, k: Meaning<N>, a: N, b: N)
    requires
        is_rounded(m, k),
        k.finite(a),
        k.finite(b),
        k.value(a) == k.value(b),
        0real <= k.value(a) <= 1real,
    ensures
        whole_part(m, a) == whole_part(m, b),
{
    lemma_unit();
    lemma_integer(m, k, 255);
    let full = m.from_int(255);
    let x = k.value(a);
    let exact = x * 255real;
    let s = m.times(a, full);
    let t = m.times(b, full);
    assert(k.rounds(s, exact));
    assert(k.rounds(t, exact));
    assert(unit() * size(exact) <= 255real * unit()) by (nonlinear_arith)
        requires
            size(exact) <= 255real,
            unit() == 1real / 16777216real,
    ;
    let v = k.value(s);
    lemma_kept_integer(m, k, 0);
    assert(k.order_rule(0real, exact));
    assert(m.truncate(s) as real <= v && v < m.truncate(s) as real + 1real);
    assert(m.truncate(t) as real <= v && v < m.truncate(t) as real + 1real);
}

/// The alpha average of a hash lies between zero and one.
proof fn lemma_average_alpha<N>(m: Model<N>, k: Meaning<N>, hash: Seq<u8>)
    requires
        is_rounded(m, k),
    ensures
        k.finite(average_a(m, hash)),
        0real <= k.value(average_a(m, hash)) <= 1real,
{
    lemma_integer(m, k, 1);
    lemma_integer(m, k, 15);
    if let Some((dc, _)) = alpha_of(hash) {
        lemma_integer(m, k, dc as int);
        let x = dc as real / 15real;
        assert(k.rounds(m.ratio(dc as int, 15), x));
        assert(k.order_rule(0real, x));
        assert(k.order_rule(x, 1real));
        lemma_kept_integer(m, k, 0);
        lemma_kept_integer(m, k, 1);
    }
}

/// In rounded arithmetic a hash all of whose scales are zero is decoded to its average colour
/// everywhere, whatever its nibbles hold.
#[verifier::spinoff_prover]
pub proof fn rounded_zero_scales_decode_to_average<N>(
    m: Model<N>,
    k: Meaning<N>,
    hash: Seq<u8>,
    x: int,
    y: int,
)
    requires
        is_rounded(m, k),
        is_complete(hash),
        has_zero_scales(hash),
        0 <= x < size_of_hash(hash).0,
        0 <= y < size_of_hash(hash).1,
    ensures
        decoded_pixel(m, hash, x, y) == average_pixel(m, hash),
{
    let header = header_of(hash);
    let (w, h) = size_of_hash(hash);
    let (nx, ny) = header.components();
    let luma = luma_count(header);
    let chroma = chroma_count();
    lemma_unit();
    lemma_decoded_size(header.aspect().0, header.aspect().1);
    lemma_triangle_first(nx, ny);
    lemma_small_triangles();
    lemma_integer(m, k, 0);
    lemma_kept_integer(m, k, 0);
    lemma_integer(m, k, 15);
    lemma_integer(m, k, 31);
    lemma_integer(m, k, 63);
    assert(is_zero(k, m.ratio(0, 31))) by {
        assert(k.rounds(m.ratio(0, 31), 0real / 31real));
    }
    assert(is_zero(k, m.ratio(0, 63))) by {
        assert(k.rounds(m.ratio(0, 63), 0real / 63real));
    }
    assert(is_zero(k, m.ratio(0, 15))) by {
        assert(k.rounds(m.ratio(0, 15), 0real / 15real));
    }
    lemma_ratio(m, k, 5, 4);
    assert(unit() * (5real / 4real) <= 2real * unit()) by (nonlinear_arith)
        requires
            unit() == 1real / 16777216real,
    ;
    lemma_zero_product(m, k, m.ratio(0, 63), m.ratio(5, 4), 2real);
    let l = average_l(m, header);
    let p = signed_average(m, header.p_dc as int);
    let q = signed_average(m, header.q_dc as int);
    let a = average_a(m, hash);
    lemma_ratio(m, k, header.l_dc as int, 63);
    let part = header.l_dc as real / 63real;
    assert(unit() * part <= unit()) by (nonlinear_arith)
        requires
            part <= 1real,
            unit() == 1real / 16777216real,
    ;
    lemma_rounded_signed(m, k, header.p_dc as int);
    lemma_rounded_signed(m, k, header.q_dc as int);
    assert(header.p_dc <= 63 && header.q_dc <= 63);
    assert(is_bounded(k, p, 3real));
    assert(is_bounded(k, q, 3real));
    lemma_average_alpha(m, k, hash);
    lemma_flat_channel(m, k, hash, l, 0, m.ratio(0, 31), nx, ny, x, y);
    lemma_flat_channel(m, k, hash, p, luma, chroma_scale(m, 0), 3, 3, x, y);
    lemma_flat_channel(m, k, hash, q, luma + chroma, chroma_scale(m, 0), 3, 3, x, y);
    if header.has_alpha {
        lemma_flat_channel(m, k, hash, a, luma + 2 * chroma, m.ratio(0, 15), 5, 5, x, y);
    }
    lemma_same_colours(m, k, hash, x, y);
}

/// Where the channel values of a pixel stand for the averages of a hash, the pixel has the
/// components of the average colour.
proof fn lemma_same_colours<N>(m: Model<N>, k: Meaning<N>, hash: Seq<u8>, x: int, y: int)
    requires
        is_rounded(m, k),
        are_same(k, average_l(m, header_of(hash)), pixel_l(m, hash, x, y), 3real),
        are_same(
            k,
            signed_average(m, header_of(hash).p_dc as int),
            pixel_p(m, hash, x, y),
            3real,
        ),
        are_same(
            k,
            signed_average(m, header_of(hash).q_dc as int),
            pixel_q(m, hash, x, y),
            3real,
        ),
        are_same(k, average_a(m, hash), pixel_a(m, hash, x, y), 3real),
        0real <= k.value(average_a(m, hash)) <= 1real,
    ensures
        decoded_pixel(m, hash, x, y) == average_pixel(m, hash),
{
    let l = average_l(m, header_of(hash));
    let p = signed_average(m, header_of(hash).p_dc as int);
    let q = signed_average(m, header_of(hash).q_dc as int);
    let a = average_a(m, hash);
    let u = pixel_l(m, hash, x, y);
    let v = pixel_p(m, hash, x, y);
    let w = pixel_q(m, hash, x, y);
    lemma_same_rgb(m, k, l, p, q, u, v, w);
    let rgb = to_rgb(m, l, p, q);
    let other = to_rgb(m, u, v, w);
    lemma_same_component(m, k, rgb.r, other.r);
    lemma_same_component(m, k, rgb.g, other.g);
    lemma_same_component(m, k, rgb.b, other.b);
    lemma_same_component(m, k, a, pixel_a(m, hash, x, y));
}

/// In rounded arithmetic every pixel of the image that a hash with zero scales is decoded to has
/// the components of the average colour.
#[verifier::spinoff_prover]
pub proof fn rounded_zero_scales_decode_to_flat_image<N>(
    m: Model<N>,
    k: Meaning<N>,
    hash: Seq<u8>,
    i: int,
    c: int,
)
    requires
        is_rounded(m, k),
        is_complete(hash),
        has_zero_scales(hash),
        0 <= i < size_of_hash(hash).0 * size_of_hash(hash).1,
        0 <= c < 4,
    ensures
        decoded_rgba(m, hash)[4 * i + c] == average_pixel(m, hash)[c],
{
    let (w, h) = size_of_hash(hash);
    assert((4 * i + c) / 4 == i && (4 * i + c) % 4 == c);
    lemma_decoded_size(header_of(hash).aspect().0, header_of(hash).aspect().1);
    assert(0 < w) by (nonlinear_arith)
        requires
            0 <= i < w * h,
            0 <= w,
            0 <= h,
    ;
    lemma_fundamental_div_mod(i, w);
    lemma_mod_bound(i, w);
    assert(0 <= i / w < h) by (nonlinear_arith)
        requires
            i == w * (i / w) + i % w,
            0 <= i % w < w,
            0 <= i < w * h,
    ;
    rounded_zero_scales_decode_to_average(m, k, hash, i % w, i / w);
}

/// Over all samples, a computed cosine with a frequency other than zero sums up to little, unless
/// there are fewer than half as many samples as half turns.
proof fn lemma_cosine_sum<N>(m: Model<N>, k: Meaning<N>, len: int, c: int)
    requires
        is_rounded(m, k),
        1 <= len <= 100,
        0 <= c <= 6,
        c < 2 * len,
    ensures
        c > 0 ==> size(sum(|i: int| k.value(cosine(m, len, c, i)), len)) <= len as real * (31real
            / 10000real),
        size(sum(|i: int| k.value(cosine(m, len, c, i)), len)) <= len as real * (1003real
            / 1000real),
{
    let f = |i: int| k.value(cosine(m, len, c, i));
    let g = |i: int| cosine(k.exact, len, c, i);
    assert forall|i: int| 0 <= i < len implies size(#[trigger] f(i) - g(i)) <= 31real
        / 10000real by {
        cosines_are_near(m, k, len, c, i);
    }
    lemma_sum_near(f, g, len, 31real / 10000real);
    if c > 0 {
        lemma_cosines_cancel(k.exact, len, c);
    }
    assert forall|i: int| 0 <= i < len implies size(#[trigger] f(i) - (|i: int| 0real)(i))
        <= 1003real / 1000real by {
        cosines_are_bounded(m, k, len, c, i);
    }
    lemma_sum_near(f, |i: int| 0real, len, 1003real / 1000real);
    lemma_sum_zero(len);
}

/// In rounded arithmetic every coefficient but the average of a channel whose samples are all the
/// same is small.
#[verifier::spinoff_prover]
proof fn lemma_small_coefficient<N>(
    m: Model<N>,
    k: Meaning<N>,
    samples: Seq<N>,
    v: N,
    w: int,
    h: int,
    cx: int,
    cy: int,
)
    requires
        is_rounded(m, k),
        1 <= w <= MAX_SIDE,
        1 <= h <= MAX_SIDE,
        samples.len() == w * h,
        is_bounded(k, v, 1real + micro(80)),
        forall|i: int| 0 <= i < samples.len() ==> #[trigger] samples[i] == v,
        0 <= cx <= 6,
        0 <= cy <= 6,
        cx > 0 || cy > 0,
        cx < 2 * w,
        cy < 2 * h,
    ensures
        is_bounded(k, coefficient(m, samples, w, h, cx, cy), 4real / 1000real),
{
    lemma_near_coefficient(m, k, samples, w, h, cx, cy);
    lemma_cosine_sum(m, k, w, cx);
    lemma_cosine_sum(m, k, h, cy);
    let x = k.value(v);
    let f = |y: int| k.value(cosine(m, h, cy, y));
    let g = |i: int| k.value(cosine(m, w, cx, i));
    let vertical = sum(f, h);
    let horizontal = sum(g, w);
    let a = x * vertical;
    let terms = |i: int|
        exact_column(m, k, samples, w, h, cy, i) * k.value(cosine(m, w, cx, i));
    let scaled = |i: int| g(i) * a;
    assert forall|i: int| 0 <= i < w implies #[trigger] terms(i) == scaled(i) by {
        let column = |y: int| k.value(samples[y * w + i]) * k.value(cosine(m, h, cy, y));
        let other = |y: int| f(y) * x;
        assert forall|y: int| 0 <= y < h implies #[trigger] column(y) == other(y) by {
            assert(0 <= y * w + i < w * h) by (nonlinear_arith)
                requires
                    0 <= i < w,
                    0 <= y < h,
            ;
            assert(samples[y * w + i] == v);
            let c = f(y);
            assert(x * c == c * x) by (nonlinear_arith);
        }
        lemma_sum_eq(column, other, h);
        lemma_sum_scale(f, x, h);
        assert(vertical * x == a) by (nonlinear_arith)
            requires
                a == x * vertical,
        ;
        let c = g(i);
        assert(a * c == c * a) by (nonlinear_arith);
    }
    lemma_sum_eq(terms, scaled, w);
    lemma_sum_scale(g, a, w);
    lemma_real_product(w, h);
    let r = w as real;
    let s = h as real;
    let n = (w * h) as real;
    let total = exact_total(m, k, samples, w, h, cx, cy);
    assert(size(total / n) <= 35real / 10000real) by (nonlinear_arith)
        requires
            total == horizontal * (x * vertical),
            size(x) <= 1real + micro(80),
            micro(80) == 80real / 1000000real,
            n == r * s,
            1real <= r,
            1real <= s,
            (size(vertical) <= s * (31real / 10000real) && size(horizontal) <= r * (1003real
                / 1000real)) || (size(vertical) <= s * (1003real / 1000real) && size(horizontal)
                <= r * (31real / 10000real)),
    {
        let p = size(horizontal) / r;
        let q = size(vertical) / s;
        assert(p * r == size(horizontal));
        assert(q * s == size(vertical));
        assert(p * q <= 312real / 100000real);
        assert(size(total) == size(horizontal) * size(vertical) * size(x));
        assert(size(horizontal) * size(vertical) == p * q * n);
        assert(size(total) <= 312real / 100000real * n * (1real + micro(80)));
    }
}

/// A number that is small is recorded as zero.
proof fn lemma_small_level<N>(m: Model<N>, k: Meaning<N>, value: N, steps: int)
    requires
        is_rounded(m, k),
        is_bounded(k, value, 4real / 1000real),
        1 <= steps <= 63,
    ensures
        quantized(m, value, steps) == 0,
{
    lemma_unit();
    lemma_integer(m, k, steps);
    let s = steps as real;
    lemma_times(m, k, m.from_int(steps), value, 63real, 4real / 1000real);
    let scaled = m.times(m.from_int(steps), value);
    let x = k.value(scaled);
    assert(x < half());
    if x >= 0real {
        assert(m.round(scaled) as real <= x + half());
    }
}

/// In rounded arithmetic the scale of a channel whose samples are all the same is small.
proof fn lemma_small_scale<N>(
    m: Model<N>,
    k: Meaning<N>,
    samples: Seq<N>,
    v: N,
    w: int,
    h: int,
    nx: int,
    ny: int,
)
    requires
        is_rounded(m, k),
        1 <= w <= MAX_SIDE,
        1 <= h <= MAX_SIDE,
        samples.len() == w * h,
        is_bounded(k, v, 1real + micro(80)),
        forall|i: int| 0 <= i < samples.len() ==> #[trigger] samples[i] == v,
        1 <= nx <= 7,
        1 <= ny <= 7,
        nx <= 2 * w,
        ny <= 2 * h,
    ensures
        is_bounded(k, channel_scale(m, samples, w, h, nx, ny), 4real / 1000real),
{
    let all = triangle(nx, ny);
    let values = other_coefficients(m, samples, w, h, nx, ny);
    lemma_triangle_first(nx, ny);
    lemma_triangle_bounds(nx, ny);
    assert forall|j: int| 0 <= j < values.len() implies is_bounded(
        k,
        #[trigger] values[j],
        4real / 1000real,
    ) by {
        let (cx, cy) = all[j + 1];
        assert(all.drop_first()[j] == all[j + 1]);
        coefficients_are_in_order(nx, ny, 0, j + 1);
        lemma_small_coefficient(m, k, samples, v, w, h, cx as int, cy as int);
    }
    lemma_rounded_magnitude(m, k, values, 4real / 1000real);
}

/// Whether the sides of an image are long enough for all frequencies that it is transformed with:
/// each has at least half as many pixels as components.
pub open spec fn resolves_components(w: int, h: int, alpha: bool) -> bool {
    let (nx, ny) = used_luma(w, h, alpha);
    &&& nx <= 2 * w
    &&& ny <= 2 * h
    &&& alpha ==> 5 <= 2 * w && 5 <= 2 * h
}

/// In rounded arithmetic the hash of an image of one colour, whose sides are long enough for all
/// frequencies, records no scale but zero.
#[verifier::spinoff_prover]
pub proof fn rounded_solid_image_has_zero_scales<N>(
    m: Model<N>,
    k: Meaning<N>,
    w: int,
    h: int,
    rgba: Seq<u8>,
)
    requires
        is_rounded(m, k),
        0 < w <= MAX_SIDE,
        0 < h <= MAX_SIDE,
        is_solid(rgba, w * h),
        resolves_components(w, h, has_alpha(rgba, w * h)),
    ensures
        has_zero_scales(thumb_hash(m, w, h, rgba)),
{
    let n = w * h;
    assert(0 < n <= 10000) by (nonlinear_arith)
        requires
            n == w * h,
            0 < w <= 100,
            0 < h <= 100,
    ;
    let alpha = has_alpha(rgba, n);
    let (nx, ny) = used_luma(w, h, alpha);
    let v = pixel_lpqa(m, rgba, n, 0);
    assert forall|i: int| 0 <= i < n implies #[trigger] pixel_lpqa(m, rgba, n, i) == v by {
        assert(component(rgba, i, 0) == component(rgba, 0, 0));
        assert(component(rgba, i, 1) == component(rgba, 0, 1));
        assert(component(rgba, i, 2) == component(rgba, 0, 2));
        assert(component(rgba, i, 3) == component(rgba, 0, 3));
    }
    channel_values_are_near(m, k, rgba, n, 0);
    rounded_averages_read_back(m, k, w, h, rgba);
    lemma_luma_extent(luma_limit(alpha), w, max_of(w, h));
    lemma_luma_extent(luma_limit(alpha), h, max_of(w, h));
    lemma_small_scale(m, k, plane_l(m, rgba, n), v.l, w, h, nx, ny);
    lemma_small_scale(m, k, plane_p(m, rgba, n), v.p, w, h, 3, 3);
    lemma_small_scale(m, k, plane_q(m, rgba, n), v.q, w, h, 3, 3);
    lemma_small_level(m, k, channel_scale(m, plane_l(m, rgba, n), w, h, nx, ny), 31);
    lemma_small_level(m, k, channel_scale(m, plane_p(m, rgba, n), w, h, 3, 3), 63);
    lemma_small_level(m, k, channel_scale(m, plane_q(m, rgba, n), w, h, 3, 3), 63);
    if alpha {
        lemma_small_scale(m, k, plane_a(m, rgba, n), v.a, w, h, 5, 5);
        lemma_small_level(m, k, channel_scale(m, plane_a(m, rgba, n), w, h, 5, 5), 15);
    }
}

/// In rounded arithmetic an image of one colour, whose sides are long enough for all frequencies,
/// is decoded to an image of one colour: up to 6 that of the image in red, green and blue, and up
/// to 9 in alpha, which is exact for an opaque image. Of an image that is wholly transparent only
/// alpha is kept.
#[verifier::spinoff_prover]
pub proof fn rounded_solid_colour_is_kept<N>(
    m: Model<N>,
    k: Meaning<N>,
    w: int,
    h: int,
    rgba: Seq<u8>,
    x: int,
    y: int,
)
    requires
        is_rounded(m, k),
        0 < w <= MAX_SIDE,
        0 < h <= MAX_SIDE,
        is_solid(rgba, w * h),
        resolves_components(w, h, has_alpha(rgba, w * h)),
        0 <= x < size_of_hash(thumb_hash(m, w, h, rgba)).0,
        0 <= y < size_of_hash(thumb_hash(m, w, h, rgba)).1,
    ensures
        ({
            let hash = thumb_hash(m, w, h, rgba);
            let pixel = decoded_pixel(m, hash, x, y);
            &&& pixel == average_pixel(m, hash)
            &&& component(rgba, 0, 3) > 0 ==> {
                &&& -6 <= pixel[0] - component(rgba, 0, 0) <= 6
                &&& -6 <= pixel[1] - component(rgba, 0, 1) <= 6
                &&& -6 <= pixel[2] - component(rgba, 0, 2) <= 6
            }
            &&& -9 <= pixel[3] - component(rgba, 0, 3) <= 9
            &&& component(rgba, 0, 3) == 255 ==> pixel[3] == 255
        }),
{
    let n = w * h;
    assert(0 < n) by (nonlinear_arith)
        requires
            n == w * h,
            0 < w,
            0 < h,
    ;
    let hash = thumb_hash(m, w, h, rgba);
    let color = average_rgba(m, hash);
    assert(decoded_pixel(m, hash, x, y) == average_pixel(m, hash)) by {
        rounded_hash_decodes(m, k, w, h, rgba);
        rounded_solid_image_has_zero_scales(m, k, w, h, rgba);
        rounded_zero_scales_decode_to_average(m, k, hash, x, y);
    }
    rounded_average_is_close(m, k, w, h, rgba);
    lemma_average_alpha(m, k, hash);
    lemma_solid_means(rgba, n, 0);
    lemma_solid_means(rgba, n, 1);
    lemma_solid_means(rgba, n, 2);
    if component(rgba, 0, 3) > 0 {
        lemma_part_error(m, k, color.0, component(rgba, 0, 0), 6);
        lemma_part_error(m, k, color.1, component(rgba, 0, 1), 6);
        lemma_part_error(m, k, color.2, component(rgba, 0, 2), 6);
    }
    lemma_part_error(m, k, color.3, component(rgba, 0, 3), 9);
    if component(rgba, 0, 3) == 255 {
        assert(!has_alpha(rgba, n)) by {
            assert forall|i: int| 0 <= i < n implies #[trigger] component(rgba, i, 3) == 255 by {
                assert(component(rgba, i, 3) == component(rgba, 0, 3));
            }
        }
        lemma_full_part(m, k, color.3);
    }
}

/// A number that is close to a component is decoded to a component that is close to it.
#[verifier::spinoff_prover]
proof fn lemma_part_error<N>(m: Model<N>, k: Meaning<N>, value: N, original: u8, error: int)
    requires
        is_rounded(m, k),
        k.finite(value),
        0real <= k.value(value) <= 1real,
        0 <= error <= 255,
        size(k.value(value) - original as real / 255real) * 255real < error as real - 1real
            / 10real,
    ensures
        -error <= whole_part(m, value) - original <= error,
{
    lemma_unit();
    lemma_integer(m, k, 255);
    lemma_kept_integer(m, k, 0);
    lemma_kept_integer(m, k, 255);
    let exact = k.value(value) * 255real;
    let scaled = m.times(value, m.from_int(255));
    assert(k.rounds(scaled, exact));
    assert(unit() * size(exact) <= 255real * unit()) by (nonlinear_arith)
        requires
            size(exact) <= 255real,
            unit() == 1real / 16777216real,
    ;
    assert(k.order_rule(0real, exact));
    assert(k.order_rule(exact, 255real));
    let v = k.value(scaled);
    assert(m.truncate(scaled) as real <= v && v < m.truncate(scaled) as real + 1real);
}

/// One is decoded to the largest component.
proof fn lemma_full_part<N>(m: Model<N>, k: Meaning<N>, value: N)
    requires
        is_rounded(m, k),
        k.finite(value),
        k.value(value) == 1real,
    ensures
        whole_part(m, value) == 255,
{
    lemma_integer(m, k, 255);
    lemma_kept_integer(m, k, 255);
    let scaled = m.times(value, m.from_int(255));
    assert(k.rounds(scaled, 1real * 255real));
    let v = k.value(scaled);
    assert(m.truncate(scaled) as real <= v && v < m.truncate(scaled) as real + 1real);
}

} // verus!
