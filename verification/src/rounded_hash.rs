//! The hash of an image in an arithmetic that rounds, and what it tells of its sides.
use crate::accuracy::lemma_aspect_error;
use crate::arithmetic::Model;
use crate::base91::{base91_round_trip, decoded, encoded, is_text};
use crate::color::{has_alpha, plane_l, plane_p, plane_q};
use crate::decoder::{aspect_ratio, decoded_rgba, size_of_hash};
use crate::encoder::{
    encoded_header, quantized, quantized_signed, short_extent, thumb_hash, used_luma,
};
use crate::exact::half;
use crate::fidelity::size;
use crate::forward::{channel_scale, coefficient};
use crate::geometry::{lemma_luma_extent, luma_limit, luma_size, max_of, DECODED_SIDE, MAX_SIDE};
use crate::header::header_of;
use crate::laws::{
    announced_components, aspect_is_close, encoded_hash_decodes, opaque_hash_decodes_opaque,
};
use crate::parts::{has_averages, is_complete};
use crate::rounded::{
    is_bounded, is_near, is_rounded, lemma_integer, lemma_kept_integer, lemma_times, lemma_unit,
    micro, unit, Meaning,
};
use crate::rounded_color::{channel_values_are_near, lemma_ratio};
use crate::rounded_forward::lemma_rounded_channel;
use vstd::prelude::*;

verus! {

/// A number that exceeds one by little is recorded as `steps` at most.
#[verifier::spinoff_prover]
pub proof fn lemma_rounded_level<N>(m: Model<N>, k: Meaning<N>, value: N, steps: int)
    requires
        is_rounded(m, k),
        is_bounded(k, value, 1007real / 1000real),
        1 <= steps <= 63,
    ensures
        quantized(m, value, steps) <= steps,
{
    lemma_unit();
    lemma_integer(m, k, steps);
    let s = steps as real;
    let v = k.value(value);
    let scaled = m.times(m.from_int(steps), value);
    assert(size(s * v) <= s * (1007real / 1000real)) by (nonlinear_arith)
        requires
            0real <= s,
            size(v) <= 1007real / 1000real,
    ;
    assert(k.rounds(scaled, s * v));
    assert(unit() * size(s * v) <= 64real * unit()) by (nonlinear_arith)
        requires
            size(s * v) <= 64real,
            unit() == 1real / 16777216real,
    ;
    let x = k.value(scaled);
    assert(x < s + half());
    if x >= 0real {
        assert(m.round(scaled) as real <= x + half());
    }
}

/// A number whose magnitude exceeds one by little is recorded as 63 at most.
#[verifier::spinoff_prover]
pub proof fn lemma_rounded_signed_level<N>(m: Model<N>, k: Meaning<N>, value: N)
    requires
        is_rounded(m, k),
        is_bounded(k, value, 1007real / 1000real),
    ensures
        quantized_signed(m, value) <= 63,
{
    lemma_unit();
    lemma_ratio(m, k, 63, 2);
    let half_range = m.ratio(63, 2);
    let t = k.value(half_range);
    assert(unit() * (63real / 2real) == 63real / 33554432real) by (nonlinear_arith)
        requires
            unit() == 1real / 16777216real,
    ;
    assert(size(t - 63real / 2real) <= micro(3));
    let scaled = m.times(half_range, value);
    lemma_times(m, k, half_range, value, 316real / 10real, 1007real / 1000real);
    let v = k.value(value);
    assert(size(t * v) <= 3173real / 100real) by (nonlinear_arith)
        requires
            size(t) <= 31501real / 1000real,
            size(v) <= 1007real / 1000real,
    ;
    let exact = t + k.value(scaled);
    let shifted = m.plus(half_range, scaled);
    assert(k.rounds(shifted, exact));
    assert(unit() * size(exact) <= 64real * unit()) by (nonlinear_arith)
        requires
            size(exact) <= 64real,
            unit() == 1real / 16777216real,
    ;
    let x = k.value(shifted);
    assert(x < 63real + half());
    if x >= 0real {
        assert(m.round(shifted) as real <= x + half());
    }
}

/// In rounded arithmetic the header of the hash of every image without an empty side fits into
/// its bits.
#[verifier::spinoff_prover]
pub proof fn rounded_header_fits<N>(m: Model<N>, k: Meaning<N>, w: int, h: int, rgba: Seq<u8>)
    requires
        is_rounded(m, k),
        0 < w <= MAX_SIDE,
        0 < h <= MAX_SIDE,
    ensures
        encoded_header(m, w, h, rgba).fits(),
{
    let n = w * h;
    assert(0 < n <= 10000) by (nonlinear_arith)
        requires
            n == w * h,
            0 < w <= 100,
            0 < h <= 100,
    ;
    let alpha = has_alpha(rgba, n);
    let (nx, ny) = used_luma(w, h, alpha);
    let l = plane_l(m, rgba, n);
    let p = plane_p(m, rgba, n);
    let q = plane_q(m, rgba, n);
    let bound = 1real + micro(80);
    assert forall|i: int| 0 <= i < n implies is_bounded(k, #[trigger] l[i], bound) by {
        channel_values_are_near(m, k, rgba, n, i);
    }
    assert forall|i: int| 0 <= i < n implies is_bounded(k, #[trigger] p[i], bound) by {
        channel_values_are_near(m, k, rgba, n, i);
    }
    assert forall|i: int| 0 <= i < n implies is_bounded(k, #[trigger] q[i], bound) by {
        channel_values_are_near(m, k, rgba, n, i);
    }
    lemma_luma_extent(luma_limit(alpha), w, max_of(w, h));
    lemma_luma_extent(luma_limit(alpha), h, max_of(w, h));
    lemma_rounded_channel(m, k, l, w, h, nx, ny);
    lemma_rounded_channel(m, k, p, w, h, 3, 3);
    lemma_rounded_channel(m, k, q, w, h, 3, 3);
    lemma_rounded_level(m, k, coefficient(m, l, w, h, 0, 0), 63);
    lemma_rounded_signed_level(m, k, coefficient(m, p, w, h, 0, 0));
    lemma_rounded_signed_level(m, k, coefficient(m, q, w, h, 0, 0));
    lemma_rounded_level(m, k, channel_scale(m, l, w, h, nx, ny), 31);
    lemma_rounded_level(m, k, channel_scale(m, p, w, h, 3, 3), 63);
    lemma_rounded_level(m, k, channel_scale(m, q, w, h, 3, 3), 63);
}

/// In rounded arithmetic the hash of every image without an empty side can be decoded, to an
/// image neither side of which is shorter than five, and records the proportions of the image.
/// No part of it that leaves bytes at its end out can be decoded. Its text form is decoded to the
/// same image.
pub proof fn rounded_hash_decodes<N>(m: Model<N>, k: Meaning<N>, w: int, h: int, rgba: Seq<u8>)
    requires
        is_rounded(m, k),
        0 < w <= MAX_SIDE,
        0 < h <= MAX_SIDE,
    ensures
        ({
            let hash = thumb_hash(m, w, h, rgba);
            &&& is_complete(hash)
            &&& has_averages(hash)
            &&& header_of(hash) == encoded_header(m, w, h, rgba)
            &&& header_of(hash).aspect() == luma_size(w, h, has_alpha(rgba, w * h))
            &&& header_of(hash).aspect().1 != 0
            &&& 5 <= size_of_hash(hash).0 <= DECODED_SIDE
            &&& 5 <= size_of_hash(hash).1 <= DECODED_SIDE
            &&& forall|j: int| 0 <= j < hash.len() ==> !is_complete(#[trigger] hash.take(j))
            &&& is_text(encoded(hash))
            &&& decoded(encoded(hash)) == hash
        }),
{
    rounded_header_fits(m, k, w, h, rgba);
    encoded_hash_decodes(m, w, h, rgba);
    base91_round_trip(thumb_hash(m, w, h, rgba));
    let alpha = has_alpha(rgba, w * h);
    lemma_luma_extent(luma_limit(alpha), w, max_of(w, h));
    lemma_luma_extent(luma_limit(alpha), h, max_of(w, h));
    announced_components(w, h, encoded_header(m, w, h, rgba));
}

/// The inverse of a number that is close to a quotient of small numbers is close to the inverse.
#[verifier::spinoff_prover]
proof fn lemma_inverse(r: real, q: real)
    requires
        1real <= q <= 7real,
        1real <= r,
        size(r - q) <= unit() * q + unit() * unit(),
    ensures
        size(1real / r - 1real / q) <= micro(1),
{
    lemma_unit();
    let u = unit();
    assert(u * q <= 7real * u) by (nonlinear_arith)
        requires
            q <= 7real,
            u == 1real / 16777216real,
    ;
    assert(size(1real / r - 1real / q) <= size(r - q)) by (nonlinear_arith)
        requires
            1real <= q,
            1real <= r,
    {
        assert(1real / r - 1real / q == (q - r) / (r * q));
        assert(1real <= r * q);
        assert(size((q - r) / (r * q)) <= size(q - r));
    }
}

/// In rounded arithmetic the aspect ratio that is read from the hash of an image is at least one
/// where the image is at least as wide as it is high, and at most one where it is at least as high
/// as it is wide. It is the quotient of the numbers of components along the sides, up to one
/// part in `2^24`. The quotient of the shorter and the longer side that it stands for is that of
/// the image up to one component of the longer side.
#[verifier::spinoff_prover]
pub proof fn rounded_aspect_ratio_is_close<N>(
    m: Model<N>,
    k: Meaning<N>,
    w: int,
    h: int,
    rgba: Seq<u8>,
)
    requires
        is_rounded(m, k),
        0 < w <= MAX_SIDE,
        0 < h <= MAX_SIDE,
    ensures
        ({
            let ratio = aspect_ratio(m, thumb_hash(m, w, h, rgba));
            let alpha = has_alpha(rgba, w * h);
            let (x, y) = luma_size(w, h, alpha);
            let quotient = x as real / (y as real);
            let r = k.value(ratio);
            let limit = luma_limit(alpha) as real;
            &&& is_near(k, ratio, quotient, unit() * quotient + unit() * unit())
            &&& w >= h ==> r >= 1real
            &&& w <= h ==> r <= 1real
            &&& w >= h ==> size(1real / r - h as real / (w as real)) <= 1real / limit
            &&& w <= h ==> size(r - w as real / (h as real)) <= 1real / limit
        }),
{
    rounded_hash_decodes(m, k, w, h, rgba);
    let alpha = has_alpha(rgba, w * h);
    let limit = luma_limit(alpha);
    let components = short_extent(w, h, alpha);
    let long = max_of(w, h);
    let short = if w < h {
        w
    } else {
        h
    };
    aspect_is_close(w, h, alpha);
    lemma_luma_extent(limit, w, long);
    lemma_luma_extent(limit, h, long);
    lemma_aspect_error(limit, components, short, long);
    lemma_unit();
    let (x, y) = luma_size(w, h, alpha);
    lemma_ratio(m, k, x, y);
    lemma_integer(m, k, x);
    lemma_integer(m, k, y);
    lemma_kept_integer(m, k, 1);
    let quotient = x as real / (y as real);
    let ratio = m.ratio(x, y);
    assert(k.rounds(ratio, quotient));
    let r = k.value(ratio);
    assert(k.order_rule(1real, quotient) && k.order_rule(quotient, 1real));
    let l = limit as real;
    let c = components as real;
    assert(1real / (l / c) == c / l && 1real <= l / c <= 7real && c / l <= 1real)
        by (nonlinear_arith)
        requires
            1real <= c <= l,
            l <= 7real,
    ;
    if w >= h {
        assert(quotient == l / c);
        lemma_inverse(r, quotient);
    }
    if w <= h {
        assert(quotient == c / l);
        assert(unit() * quotient <= unit()) by (nonlinear_arith)
            requires
                quotient <= 1real,
                unit() == 1real / 16777216real,
        ;
    }
}

/// Numbers that are close to a quotient and its inverse have a product close to one.
#[verifier::spinoff_prover]
proof fn lemma_inverse_product(r: real, s: real, x: real, y: real)
    requires
        1real <= x <= 7real,
        1real <= y <= 7real,
        size(r - x / y) <= unit() * (x / y) + unit() * unit(),
        size(s - y / x) <= unit() * (y / x) + unit() * unit(),
    ensures
        size(r * s - 1real) <= micro(1),
{
    lemma_unit();
    let u = unit();
    let p = x / y;
    let q = y / x;
    assert(p * q == 1real && 0real <= p <= 7real && 0real <= q <= 7real) by (nonlinear_arith)
        requires
            1real <= x <= 7real,
            1real <= y <= 7real,
            p == x / y,
            q == y / x,
    ;
    let a = r - p;
    let b = s - q;
    assert(u * p <= 7real * u && u * q <= 7real * u) by (nonlinear_arith)
        requires
            p <= 7real,
            q <= 7real,
            u == 1real / 16777216real,
    ;
    let e = u * u;
    assert(size(p * b) <= u + 7real * e && size(q * a) <= u + 7real * e) by (nonlinear_arith)
        requires
            p * q == 1real,
            0real <= p <= 7real,
            0real <= q <= 7real,
            0real <= e,
            size(a) <= u * p + e,
            size(b) <= u * q + e,
    {
        assert(size(p * b) <= p * (u * q + e));
        assert(p * (u * q + e) == u * (p * q) + p * e);
        assert(p * e <= 7real * e);
        assert(size(q * a) <= q * (u * p + e));
        assert(q * (u * p + e) == u * (p * q) + q * e);
        assert(q * e <= 7real * e);
    }
    assert(size(a * b) <= 8real * u * (8real * u)) by (nonlinear_arith)
        requires
            size(a) <= 8real * u,
            size(b) <= 8real * u,
    ;
    assert(8real * u * (8real * u) == 64real * e) by (nonlinear_arith)
        requires
            e == u * u,
    ;
    assert(r * s - p * q == p * b + q * a + a * b) by (nonlinear_arith)
        requires
            a == r - p,
            b == s - q,
    ;
}

/// In rounded arithmetic the aspect ratios of two images, equally opaque or transparent, of which
/// one is as wide as the other is high and as high as the other is wide, are inverse, up to
/// one millionth.
pub proof fn rounded_exchanged_sides_invert_aspect_ratio<N>(
    m: Model<N>,
    k: Meaning<N>,
    w: int,
    h: int,
    rgba: Seq<u8>,
    other: Seq<u8>,
)
    requires
        is_rounded(m, k),
        0 < w <= MAX_SIDE,
        0 < h <= MAX_SIDE,
        has_alpha(rgba, w * h) == has_alpha(other, h * w),
    ensures
        size(
            k.value(aspect_ratio(m, thumb_hash(m, w, h, rgba))) * k.value(
                aspect_ratio(m, thumb_hash(m, h, w, other)),
            ) - 1real,
        ) <= micro(1),
{
    let alpha = has_alpha(rgba, w * h);
    rounded_aspect_ratio_is_close(m, k, w, h, rgba);
    rounded_aspect_ratio_is_close(m, k, h, w, other);
    lemma_luma_extent(luma_limit(alpha), w, max_of(w, h));
    lemma_luma_extent(luma_limit(alpha), h, max_of(w, h));
    let (x, y) = luma_size(w, h, alpha);
    lemma_inverse_product(
        k.value(aspect_ratio(m, thumb_hash(m, w, h, rgba))),
        k.value(aspect_ratio(m, thumb_hash(m, h, w, other))),
        x as real,
        y as real,
    );
}

/// In rounded arithmetic an opaque image is decoded to an opaque image.
#[verifier::spinoff_prover]
pub proof fn rounded_opaque_image_decodes_opaque<N>(
    m: Model<N>,
    k: Meaning<N>,
    w: int,
    h: int,
    rgba: Seq<u8>,
    i: int,
)
    requires
        is_rounded(m, k),
        0 < w <= MAX_SIDE,
        0 < h <= MAX_SIDE,
        !has_alpha(rgba, w * h),
        ({
            let (ow, oh) = size_of_hash(thumb_hash(m, w, h, rgba));
            0 <= i < ow * oh
        }),
    ensures
        decoded_rgba(m, thumb_hash(m, w, h, rgba))[4 * i + 3] == 255,
{
    rounded_hash_decodes(m, k, w, h, rgba);
    opaque_hash_decodes_opaque(m, thumb_hash(m, w, h, rgba), i);
    let one = m.from_int(1);
    let most = m.from_int(255);
    lemma_integer(m, k, 1);
    lemma_integer(m, k, 255);
    lemma_kept_integer(m, k, 255);
    assert(k.value(one) * k.value(most) == 255real) by (nonlinear_arith)
        requires
            k.value(one) == 1real,
            k.value(most) == 255real,
    ;
    assert(k.rounds(m.times(one, most), 255real));
}

} // verus!
