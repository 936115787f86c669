//! The nibbles of a hash in an arithmetic that rounds.
use crate::arithmetic::Model;
use crate::color::{has_alpha, plane_a, plane_l, plane_p, plane_q};
use crate::encoder::{
    encoded_alpha, encoded_header, encoded_nibbles, quantized_ac, thumb_hash, used_luma,
};
use crate::forward::{channel_ac, channel_scale};
use crate::geometry::{lemma_luma_extent, luma_limit, max_of, MAX_SIDE};
use crate::header::header_of;
use crate::laws::encoded_hash_reads_back;
use crate::parts::{alpha_of, is_complete, nibbles_of, parts_fit};
use crate::rounded::{is_bounded, is_rounded, micro, Meaning};
use crate::rounded_average::lemma_rounded_alpha_fits;
use crate::rounded_color::channel_values_are_near;
use crate::rounded_forward::{is_usable, lemma_rounded_ac};
use crate::rounded_hash::{lemma_rounded_level, rounded_header_fits};
use vstd::prelude::*;

verus! {

/// Whether each scale of the channels of an image is zero, or large enough for one half to be
/// divided by it.
pub open spec fn has_usable_scales<N>(
    m: Model<N>,
    k: Meaning<N>,
    w: int,
    h: int,
    rgba: Seq<u8>,
) -> bool {
    let n = w * h;
    let (nx, ny) = used_luma(w, h, has_alpha(rgba, n));
    &&& is_usable(k, channel_scale(m, plane_l(m, rgba, n), w, h, nx, ny))
    &&& is_usable(k, channel_scale(m, plane_p(m, rgba, n), w, h, 3, 3))
    &&& is_usable(k, channel_scale(m, plane_q(m, rgba, n), w, h, 3, 3))
    &&& has_alpha(rgba, n) ==> is_usable(k, channel_scale(m, plane_a(m, rgba, n), w, h, 5, 5))
}

/// The coefficients of a channel are recorded in nibbles.
proof fn lemma_rounded_nibbles<N>(
    m: Model<N>,
    k: Meaning<N>,
    samples: Seq<N>,
    w: int,
    h: int,
    nx: int,
    ny: int,
)
    requires
        is_rounded(m, k),
        1 <= w <= MAX_SIDE,
        1 <= h <= MAX_SIDE,
        samples.len() == w * h,
        forall|i: int|
            0 <= i < samples.len() ==> is_bounded(k, #[trigger] samples[i], 1real + micro(80)),
        1 <= nx <= 7,
        1 <= ny <= 7,
        is_usable(k, channel_scale(m, samples, w, h, nx, ny)),
    ensures
        ({
            let nibbles = quantized_ac(m, channel_ac(m, samples, w, h, nx, ny));
            forall|j: int| 0 <= j < nibbles.len() ==> #[trigger] nibbles[j] < 16
        }),
{
    let ac = channel_ac(m, samples, w, h, nx, ny);
    let nibbles = quantized_ac(m, ac);
    lemma_rounded_ac(m, k, samples, w, h, nx, ny);
    assert forall|j: int| 0 <= j < nibbles.len() implies #[trigger] nibbles[j] < 16 by {
        assert(is_bounded(k, ac[j], 1real + micro(1)));
        lemma_rounded_level(m, k, ac[j], 15);
    }
}

/// In rounded arithmetic everything that the hash of an image without an empty side records fits
/// into its bits, unless a scale is vanishingly small.
#[verifier::spinoff_prover]
pub proof fn rounded_numbers_fit<N>(m: Model<N>, k: Meaning<N>, w: int, h: int, rgba: Seq<u8>)
    requires
        is_rounded(m, k),
        0 < w <= MAX_SIDE,
        0 < h <= MAX_SIDE,
        has_usable_scales(m, k, w, h, rgba),
    ensures
        parts_fit(
            encoded_header(m, w, h, rgba),
            encoded_alpha(m, w, h, rgba),
            encoded_nibbles(m, w, h, rgba),
        ),
{
    let n = w * h;
    assert(0 < n <= 10000) by (nonlinear_arith)
        requires
            n == w * h,
            0 < w <= 100,
            0 < h <= 100,
    ;
    let alpha = has_alpha(rgba, n);
    let (nx, ny) = used_luma(w, h, alpha);
    let l = plane_l(m, rgba, n);
    let p = plane_p(m, rgba, n);
    let q = plane_q(m, rgba, n);
    let a = plane_a(m, rgba, n);
    let bound = 1real + micro(80);
    assert forall|i: int| 0 <= i < n implies is_bounded(k, #[trigger] l[i], bound) by {
        channel_values_are_near(m, k, rgba, n, i);
    }
    assert forall|i: int| 0 <= i < n implies is_bounded(k, #[trigger] p[i], bound) by {
        channel_values_are_near(m, k, rgba, n, i);
    }
    assert forall|i: int| 0 <= i < n implies is_bounded(k, #[trigger] q[i], bound) by {
        channel_values_are_near(m, k, rgba, n, i);
    }
    assert forall|i: int| 0 <= i < n implies is_bounded(k, #[trigger] a[i], bound) by {
        channel_values_are_near(m, k, rgba, n, i);
    }
    lemma_luma_extent(luma_limit(alpha), w, max_of(w, h));
    lemma_luma_extent(luma_limit(alpha), h, max_of(w, h));
    rounded_header_fits(m, k, w, h, rgba);
    lemma_rounded_alpha_fits(m, k, w, h, rgba);
    lemma_rounded_nibbles(m, k, l, w, h, nx, ny);
    lemma_rounded_nibbles(m, k, p, w, h, 3, 3);
    lemma_rounded_nibbles(m, k, q, w, h, 3, 3);
    if alpha {
        lemma_rounded_nibbles(m, k, a, w, h, 5, 5);
    }
}

/// In rounded arithmetic the hash of an image without an empty side is read back as it was
/// written, unless a scale is vanishingly small.
pub proof fn rounded_hash_reads_back<N>(m: Model<N>, k: Meaning<N>, w: int, h: int, rgba: Seq<u8>)
    requires
        is_rounded(m, k),
        0 < w <= MAX_SIDE,
        0 < h <= MAX_SIDE,
        has_usable_scales(m, k, w, h, rgba),
    ensures
        is_complete(thumb_hash(m, w, h, rgba)),
        header_of(thumb_hash(m, w, h, rgba)) == encoded_header(m, w, h, rgba),
        alpha_of(thumb_hash(m, w, h, rgba)) == encoded_alpha(m, w, h, rgba),
        nibbles_of(thumb_hash(m, w, h, rgba)) == encoded_nibbles(m, w, h, rgba),
{
    rounded_numbers_fit(m, k, w, h, rgba);
    encoded_hash_reads_back(m, w, h, rgba);
}

} // verus!
