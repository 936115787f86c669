//! The bytes of an image: which of them is which component of which pixel, and how they enter the
//! averages and the channels that are encoded.
use crate::accuracy::average_colour_is_close;
use crate::arithmetic::Model;
use crate::color::{
    alpha_sum, are_planes, are_sums, average, component, has_alpha, pixel_lpqa, plane_a, plane_l,
    plane_p, plane_q, weighted_sum, Planes, Sums,
};
use crate::decoder::average_rgba;
use crate::encoder::thumb_hash;
use crate::exact::is_exact;
use crate::fidelity::{channel_values_are_shown, size};
use crate::formulas::{shown_plane_a, shown_plane_l, shown_plane_p, shown_plane_q};
use crate::geometry::MAX_SIDE;
use crate::image::{lemma_weighted_sum_bounds, mean_alpha, mean_component, shown};
use crate::rounded::{is_rounded, Meaning};
use crate::rounded_average::rounded_average_is_close;
use vstd::prelude::*;

verus! {

/// The bytes of an image hold one pixel after the other, and of each pixel red, green, blue and
/// alpha, whatever the size of the image is.
pub proof fn pixels_lie_one_after_the_other(rgba: Seq<u8>, i: int, c: int)
    ensures
        component(rgba, i, c) == rgba[4 * i + c],
{
}

/// An image has an alpha channel just where a fourth byte of one of its pixels is not 255.
pub proof fn transparency_is_in_every_fourth_byte(rgba: Seq<u8>, n: int)
    ensures
        has_alpha(rgba, n) <==> exists|k: int|
            0 <= k < 4 * n && k % 4 == 3 && #[trigger] rgba[k] != 255,
{
    if has_alpha(rgba, n) {
        let i = choose|i: int| 0 <= i < n && #[trigger] component(rgba, i, 3) != 255;
        assert(0 <= 4 * i + 3 < 4 * n && (4 * i + 3) % 4 == 3 && rgba[4 * i + 3] != 255);
    }
    if exists|k: int| 0 <= k < 4 * n && k % 4 == 3 && #[trigger] rgba[k] != 255 {
        let k = choose|k: int| 0 <= k < 4 * n && k % 4 == 3 && #[trigger] rgba[k] != 255;
        assert(component(rgba, k / 4, 3) == rgba[k]);
    }
}

/// The sums begin with zero. Each further pixel adds its fourth byte to the sum of the alpha
/// components and, to that of a colour component, the product of its fourth byte and the byte of
/// that component.
pub proof fn each_pixel_adds_its_bytes(rgba: Seq<u8>, c: int, n: int)
    requires
        0 <= n,
    ensures
        alpha_sum(rgba, 0) == 0,
        weighted_sum(rgba, c, 0) == 0,
        alpha_sum(rgba, n + 1) == alpha_sum(rgba, n) + rgba[4 * n + 3],
        weighted_sum(rgba, c, n + 1) == weighted_sum(rgba, c, n) + rgba[4 * n + 3] * rgba[4 * n
            + c],
{
}

/// The sums of an image are those of its red, its green, its blue and its alpha components, in
/// this order.
pub proof fn sums_are_of_red_green_blue_and_alpha(rgba: Seq<u8>, n: int, sums: Sums)
    ensures
        are_sums(rgba, n, sums) <==> {
            &&& sums.r == weighted_sum(rgba, 0, n)
            &&& sums.g == weighted_sum(rgba, 1, n)
            &&& sums.b == weighted_sum(rgba, 2, n)
            &&& sums.a == alpha_sum(rgba, n)
        },
{
}

/// Whatever is summed up pixel by pixel from the bytes of an image is the sum of its alpha
/// components.
proof fn lemma_alpha_total(rgba: Seq<u8>, total: spec_fn(int) -> int, n: int)
    requires
        0 <= n,
        total(0) == 0,
        forall|i: int| 0 <= i < n ==> #[trigger] total(i + 1) == total(i) + rgba[4 * i + 3],
    ensures
        total(n) == alpha_sum(rgba, n),
    decreases n,
{
    if n > 0 {
        lemma_alpha_total(rgba, total, n - 1);
        each_pixel_adds_its_bytes(rgba, 0, n - 1);
        assert(total((n - 1) + 1) == total(n - 1) + rgba[4 * (n - 1) + 3]);
    }
}

/// Whatever is summed up pixel by pixel from the products of the bytes of an image is the
/// weighted sum of a component.
proof fn lemma_weighted_total(rgba: Seq<u8>, c: int, total: spec_fn(int) -> int, n: int)
    requires
        0 <= n,
        total(0) == 0,
        forall|i: int|
            0 <= i < n ==> #[trigger] total(i + 1) == total(i) + rgba[4 * i + 3] * rgba[4 * i + c],
    ensures
        total(n) == weighted_sum(rgba, c, n),
    decreases n,
{
    if n > 0 {
        lemma_weighted_total(rgba, c, total, n - 1);
        each_pixel_adds_its_bytes(rgba, c, n - 1);
        assert(total((n - 1) + 1) == total(n - 1) + rgba[4 * (n - 1) + 3] * rgba[4 * (n - 1) + c]);
    }
}

/// The average colour of an image is the sum of its bytes, each times the fourth byte of its
/// pixel, by 255 times the sum of the fourth bytes: the pixels count as much as they are opaque.
/// An image without an opaque pixel has the average zero. The average alpha value is the sum of
/// the fourth bytes by 255 times the number of pixels.
pub proof fn means_are_of_bytes(
    rgba: Seq<u8>,
    n: int,
    c: int,
    alpha: spec_fn(int) -> int,
    weighted: spec_fn(int) -> int,
)
    requires
        0 < n,
        alpha(0) == 0,
        forall|i: int| 0 <= i < n ==> #[trigger] alpha(i + 1) == alpha(i) + rgba[4 * i + 3],
        weighted(0) == 0,
        forall|i: int|
            0 <= i < n ==> #[trigger] weighted(i + 1) == weighted(i) + rgba[4 * i + 3] * rgba[4 * i
                + c],
    ensures
        alpha(n) > 0 ==> mean_component(rgba, n, c) * (255real * alpha(n) as real) == weighted(
            n,
        ) as real,
        alpha(n) == 0 ==> mean_component(rgba, n, c) == 0real,
        mean_alpha(rgba, n) * (255real * n as real) == alpha(n) as real,
{
    lemma_alpha_total(rgba, alpha, n);
    lemma_weighted_total(rgba, c, weighted, n);
    let (s, a, d) = (weighted(n) as real, alpha(n) as real, n as real);
    if alpha(n) > 0 {
        assert(s / (255real * a) * (255real * a) == s) by (nonlinear_arith)
            requires
                a >= 1real,
        ;
    }
    assert(a / (255real * d) * (255real * d) == a) by (nonlinear_arith)
        requires
            d >= 1real,
    ;
}

/// What an image shows of a component of a pixel: its byte by 255 where no fourth byte of the
/// image is below 255, and else its byte and the average of the image, mixed as opaque as its
/// fourth byte says.
pub proof fn shown_is_byte_over_average(rgba: Seq<u8>, n: int, c: int, i: int)
    requires
        0 <= i < n,
    ensures
        (forall|k: int| 0 <= k < 4 * n && k % 4 == 3 ==> #[trigger] rgba[k] == 255) ==> 255real
            * shown(rgba, n, c, i) == rgba[4 * i + c] as real,
        (exists|k: int| 0 <= k < 4 * n && k % 4 == 3 && #[trigger] rgba[k] != 255) ==> 65025real
            * shown(rgba, n, c, i) == 255real * (255real - rgba[4 * i + 3] as real)
            * mean_component(rgba, n, c) + rgba[4 * i + 3] as real * rgba[4 * i + c] as real,
{
    transparency_is_in_every_fourth_byte(rgba, n);
    let (base, a, v) = (
        mean_component(rgba, n, c),
        rgba[4 * i + 3] as real,
        rgba[4 * i + c] as real,
    );
    assert(65025real * (base * (1real - a / 255real) + a / 255real * (v / 255real)) == 255real * (
    255real - a) * base + a * v) by (nonlinear_arith);
}

/// The channel values that an image shows: the luminance is the mean of red, green and blue, the
/// first chroma value is the mean of red and green less blue, the second is red less green, and
/// the alpha value is the fourth byte by 255.
pub proof fn shown_channels_are_of_the_colour(rgba: Seq<u8>, n: int, i: int)
    requires
        0 <= i < n,
    ensures
        ({
            let r = shown(rgba, n, 0, i);
            let g = shown(rgba, n, 1, i);
            let b = shown(rgba, n, 2, i);
            &&& shown_plane_l(rgba, n).len() == n
            &&& shown_plane_p(rgba, n).len() == n
            &&& shown_plane_q(rgba, n).len() == n
            &&& shown_plane_a(rgba, n).len() == n
            &&& 3real * shown_plane_l(rgba, n)[i] == r + g + b
            &&& 2real * shown_plane_p(rgba, n)[i] == r + g - 2real * b
            &&& shown_plane_q(rgba, n)[i] == r - g
            &&& 255real * shown_plane_a(rgba, n)[i] == rgba[4 * i + 3] as real
        }),
{
}

/// In exact arithmetic the channels that are encoded are what the image shows.
pub proof fn planes_are_shown(m: Model<real>, rgba: Seq<u8>, n: int)
    requires
        is_exact(m),
        0 <= n <= 10000,
    ensures
        plane_l(m, rgba, n) == shown_plane_l(rgba, n),
        plane_p(m, rgba, n) == shown_plane_p(rgba, n),
        plane_q(m, rgba, n) == shown_plane_q(rgba, n),
        plane_a(m, rgba, n) == shown_plane_a(rgba, n),
{
    assert forall|i: int| 0 <= i < n implies {
        let v = #[trigger] pixel_lpqa(m, rgba, n, i);
        &&& v.l == shown_plane_l(rgba, n)[i]
        &&& v.p == shown_plane_p(rgba, n)[i]
        &&& v.q == shown_plane_q(rgba, n)[i]
        &&& v.a == shown_plane_a(rgba, n)[i]
    } by {
        channel_values_are_shown(m, rgba, n, i);
    }
    assert(plane_l(m, rgba, n) =~= shown_plane_l(rgba, n));
    assert(plane_p(m, rgba, n) =~= shown_plane_p(rgba, n));
    assert(plane_q(m, rgba, n) =~= shown_plane_q(rgba, n));
    assert(plane_a(m, rgba, n) =~= shown_plane_a(rgba, n));
}

/// The channels of an image are its planes: each has a value for every pixel.
pub proof fn channels_are_planes<N>(m: Model<N>, rgba: Seq<u8>, n: int, planes: Planes<N>)
    requires
        0 <= n,
    ensures
        plane_l(m, rgba, n).len() == n,
        plane_p(m, rgba, n).len() == n,
        plane_q(m, rgba, n).len() == n,
        plane_a(m, rgba, n).len() == n,
        are_planes(m, rgba, n, planes) <==> {
            &&& planes.l@ == plane_l(m, rgba, n)
            &&& planes.p@ == plane_p(m, rgba, n)
            &&& planes.q@ == plane_q(m, rgba, n)
            &&& planes.a@ == plane_a(m, rgba, n)
        },
{
}

/// In every arithmetic the channel values of a pixel of an image none of whose fourth bytes is
/// below 255 are computed from the first three bytes of that pixel, each times a 255th: the third
/// of their sum, the half of the sum of the first two less the last, and the first less the
/// second. The alpha value is one.
pub proof fn opaque_channel_values<N>(m: Model<N>, rgba: Seq<u8>, n: int, i: int, r: N, g: N, b: N)
    requires
        0 <= i < n,
        forall|k: int| 0 <= k < 4 * n && k % 4 == 3 ==> #[trigger] rgba[k] == 255,
        r == m.times(
            m.from_int(rgba[4 * i] as int),
            m.over(m.from_int(1), m.from_int(255)),
        ),
        g == m.times(
            m.from_int(rgba[4 * i + 1] as int),
            m.over(m.from_int(1), m.from_int(255)),
        ),
        b == m.times(
            m.from_int(rgba[4 * i + 2] as int),
            m.over(m.from_int(1), m.from_int(255)),
        ),
    ensures
        plane_l(m, rgba, n)[i] == m.times(
            m.plus(m.plus(r, g), b),
            m.over(m.from_int(1), m.from_int(3)),
        ),
        plane_p(m, rgba, n)[i] == m.minus(
            m.times(m.plus(r, g), m.over(m.from_int(1), m.from_int(2))),
            b,
        ),
        plane_q(m, rgba, n)[i] == m.minus(r, g),
        plane_a(m, rgba, n)[i] == m.from_int(1),
{
    transparency_is_in_every_fourth_byte(rgba, n);
}

/// In every arithmetic the average that the component `c` of an image is composited over is the
/// sum of the products of its bytes with the fourth bytes, times the inverse of 255 times the sum
/// of the fourth bytes, and zero where that sum is zero.
pub proof fn average_is_of_sums<N>(
    m: Model<N>,
    rgba: Seq<u8>,
    n: int,
    c: int,
    alpha: spec_fn(int) -> int,
    weighted: spec_fn(int) -> int,
)
    requires
        0 <= n,
        alpha(0) == 0,
        forall|i: int| 0 <= i < n ==> #[trigger] alpha(i + 1) == alpha(i) + rgba[4 * i + 3],
        weighted(0) == 0,
        forall|i: int|
            0 <= i < n ==> #[trigger] weighted(i + 1) == weighted(i) + rgba[4 * i + 3] * rgba[4 * i
                + c],
    ensures
        alpha(n) == 0 ==> average(m, rgba, n, c) == m.from_int(0),
        alpha(n) > 0 ==> average(m, rgba, n, c) == m.times(
            m.from_int(weighted(n)),
            m.over(m.from_int(1), m.times(m.from_int(alpha(n)), m.from_int(255))),
        ),
{
    lemma_alpha_total(rgba, alpha, n);
    lemma_weighted_total(rgba, c, weighted, n);
}

/// In every arithmetic the channel values of a pixel of an image with a fourth byte below 255 are
/// computed from the bytes of that pixel and the average colour: each component is the average
/// times what the alpha value leaves of one, plus the alpha value by 255 times its byte.
pub proof fn blended_channel_values<N>(
    m: Model<N>,
    rgba: Seq<u8>,
    n: int,
    i: int,
    alpha: N,
    r: N,
    g: N,
    b: N,
)
    requires
        0 <= i < n,
        exists|k: int| 0 <= k < 4 * n && k % 4 == 3 && #[trigger] rgba[k] != 255,
        alpha == m.over(m.from_int(rgba[4 * i + 3] as int), m.from_int(255)),
        r == m.plus(
            m.times(average(m, rgba, n, 0), m.minus(m.from_int(1), alpha)),
            m.times(m.over(alpha, m.from_int(255)), m.from_int(rgba[4 * i] as int)),
        ),
        g == m.plus(
            m.times(average(m, rgba, n, 1), m.minus(m.from_int(1), alpha)),
            m.times(m.over(alpha, m.from_int(255)), m.from_int(rgba[4 * i + 1] as int)),
        ),
        b == m.plus(
            m.times(average(m, rgba, n, 2), m.minus(m.from_int(1), alpha)),
            m.times(m.over(alpha, m.from_int(255)), m.from_int(rgba[4 * i + 2] as int)),
        ),
    ensures
        plane_l(m, rgba, n)[i] == m.over(m.plus(m.plus(r, g), b), m.from_int(3)),
        plane_p(m, rgba, n)[i] == m.minus(m.over(m.plus(r, g), m.from_int(2)), b),
        plane_q(m, rgba, n)[i] == m.minus(r, g),
        plane_a(m, rgba, n)[i] == alpha,
{
    transparency_is_in_every_fourth_byte(rgba, n);
}

/// Whether `alpha` sums up the fourth bytes of an image of `n` pixels, and the functions in
/// `weighted` the products of its first, second and third bytes with them.
spec fn are_totals(
    rgba: Seq<u8>,
    n: int,
    alpha: spec_fn(int) -> int,
    weighted: Seq<spec_fn(int) -> int>,
) -> bool {
    &&& alpha(0) == 0
    &&& forall|i: int| 0 <= i < n ==> #[trigger] alpha(i + 1) == alpha(i) + rgba[4 * i + 3]
    &&& forall|c: int| 0 <= c < 3 ==> (#[trigger] weighted[c])(0) == 0
    &&& forall|c: int, i: int|
        0 <= c < 3 && 0 <= i < n ==> #[trigger] weighted[c](i + 1) == weighted[c](i) + rgba[4 * i
            + 3] * rgba[4 * i + c]
}

/// Numbers that are close to the averages of an image are so to those of its bytes.
#[verifier::spinoff_prover]
proof fn lemma_close_to_bytes(
    color: (real, real, real, real),
    rgba: Seq<u8>,
    n: int,
    alpha: spec_fn(int) -> int,
    weighted: Seq<spec_fn(int) -> int>,
    t: real,
    blue: real,
    opacity: real,
)
    requires
        0 < n,
        are_totals(rgba, n, alpha, weighted),
        size(color.0 - mean_component(rgba, n, 0)) <= t,
        size(color.1 - mean_component(rgba, n, 1)) <= t,
        size(color.2 - mean_component(rgba, n, 2)) <= blue,
        size(color.3 - mean_alpha(rgba, n)) <= opacity,
    ensures
        ({
            let total = 255real * alpha(n) as real;
            let r = weighted[0](n) as real;
            let g = weighted[1](n) as real;
            let b = weighted[2](n) as real;
            let opaque = 255real * n as real;
            let a = alpha(n) as real;
            &&& r - t * total <= color.0 * total <= r + t * total
            &&& g - t * total <= color.1 * total <= g + t * total
            &&& b - blue * total <= color.2 * total <= b + blue * total
            &&& alpha(n) == 0 ==> color.0 <= t && color.1 <= t && color.2 <= blue
            &&& a - opacity * opaque <= color.3 * opaque <= a + opacity * opaque
        }),
{
    means_are_of_bytes(rgba, n, 0, alpha, weighted[0]);
    means_are_of_bytes(rgba, n, 1, alpha, weighted[1]);
    means_are_of_bytes(rgba, n, 2, alpha, weighted[2]);
    lemma_alpha_total(rgba, alpha, n);
    lemma_weighted_sum_bounds(rgba, 0, n);
    let total = 255real * alpha(n) as real;
    if alpha(n) > 0 {
        lemma_near_multiple(color.0, mean_component(rgba, n, 0), total, t);
        lemma_near_multiple(color.1, mean_component(rgba, n, 1), total, t);
        lemma_near_multiple(color.2, mean_component(rgba, n, 2), total, blue);
    } else {
        lemma_weighted_total(rgba, 0, weighted[0], n);
        lemma_weighted_total(rgba, 1, weighted[1], n);
        lemma_weighted_total(rgba, 2, weighted[2], n);
        lemma_weighted_sum_bounds(rgba, 1, n);
        lemma_weighted_sum_bounds(rgba, 2, n);
        assert(color.0 * total == 0real && color.1 * total == 0real && color.2 * total == 0real)
            by (nonlinear_arith)
            requires
                total == 0real,
        ;
        assert(t * total == 0real && blue * total == 0real) by (nonlinear_arith)
            requires
                total == 0real,
        ;
    }
    lemma_near_multiple(color.3, mean_alpha(rgba, n), 255real * n as real, opacity);
}

/// In exact arithmetic the average colour that is read from the hash of an image is that of its
/// bytes: its red value is the sum of the products of the first and the fourth bytes by 255 times
/// the sum of the fourth bytes, up to `4 / 189`, its green value that of the second bytes, up to
/// `4 / 189`, its blue value that of the third bytes, up to `1 / 54`, and its alpha value the sum
/// of the fourth bytes by 255 times the number of pixels, up to `1 / 30`. It is zero in red, green
/// and blue, up to the same, where no pixel is opaque at all.
pub proof fn average_colour_is_of_bytes(
    m: Model<real>,
    w: int,
    h: int,
    rgba: Seq<u8>,
    alpha: spec_fn(int) -> int,
    weighted: Seq<spec_fn(int) -> int>,
)
    requires
        is_exact(m),
        0 < w <= MAX_SIDE,
        0 < h <= MAX_SIDE,
        alpha(0) == 0,
        forall|i: int| 0 <= i < w * h ==> #[trigger] alpha(i + 1) == alpha(i) + rgba[4 * i + 3],
        forall|c: int| 0 <= c < 3 ==> (#[trigger] weighted[c])(0) == 0,
        forall|c: int, i: int|
            0 <= c < 3 && 0 <= i < w * h ==> #[trigger] weighted[c](i + 1) == weighted[c](i)
                + rgba[4 * i + 3] * rgba[4 * i + c],
    ensures
        ({
            let color = average_rgba(m, thumb_hash(m, w, h, rgba));
            let total = 255real * alpha(w * h) as real;
            let r = weighted[0](w * h) as real;
            let g = weighted[1](w * h) as real;
            let b = weighted[2](w * h) as real;
            let opaque = 255real * (w * h) as real;
            let a = alpha(w * h) as real;
            let (t, blue, opacity) = (4real / 189real, 1real / 54real, 1real / 30real);
            &&& r - t * total <= color.0 * total <= r + t * total
            &&& g - t * total <= color.1 * total <= g + t * total
            &&& b - blue * total <= color.2 * total <= b + blue * total
            &&& alpha(w * h) == 0 ==> color.0 <= t && color.1 <= t && color.2 <= blue
            &&& a - opacity * opaque <= color.3 * opaque <= a + opacity * opaque
        }),
{
    assert(0 < w * h) by (nonlinear_arith)
        requires
            0 < w,
            0 < h,
    ;
    average_colour_is_close(m, w, h, rgba);
    let color = average_rgba(m, thumb_hash(m, w, h, rgba));
    let (t, blue, opacity) = (4real / 189real, 1real / 54real, 1real / 30real);
    lemma_close_to_bytes(color, rgba, w * h, alpha, weighted, t, blue, opacity);
}

/// In rounded arithmetic the average colour that is read from the hash of an image without an
/// empty side is that of its bytes: its red value is the sum of the products of the first and the
/// fourth bytes by 255 times the sum of the fourth bytes, up to `22 / 1000`, its green value that
/// of the second bytes, up to `22 / 1000`, its blue value that of the third bytes, up to
/// `20 / 1000`, and its alpha value the sum of the fourth bytes by 255 times the number of pixels,
/// up to `34 / 1000`. It is zero in red, green and blue, up to the same, where no pixel is opaque
/// at all.
pub proof fn rounded_average_colour_is_of_bytes<N>(
    m: Model<N>,
    k: Meaning<N>,
    w: int,
    h: int,
    rgba: Seq<u8>,
    alpha: spec_fn(int) -> int,
    weighted: Seq<spec_fn(int) -> int>,
)
    requires
        is_rounded(m, k),
        0 < w <= MAX_SIDE,
        0 < h <= MAX_SIDE,
        alpha(0) == 0,
        forall|i: int| 0 <= i < w * h ==> #[trigger] alpha(i + 1) == alpha(i) + rgba[4 * i + 3],
        forall|c: int| 0 <= c < 3 ==> (#[trigger] weighted[c])(0) == 0,
        forall|c: int, i: int|
            0 <= c < 3 && 0 <= i < w * h ==> #[trigger] weighted[c](i + 1) == weighted[c](i)
                + rgba[4 * i + 3] * rgba[4 * i + c],
    ensures
        ({
            let average = average_rgba(m, thumb_hash(m, w, h, rgba));
            let color = (
                (k.value)(average.0),
                (k.value)(average.1),
                (k.value)(average.2),
                (k.value)(average.3),
            );
            let total = 255real * alpha(w * h) as real;
            let r = weighted[0](w * h) as real;
            let g = weighted[1](w * h) as real;
            let b = weighted[2](w * h) as real;
            let opaque = 255real * (w * h) as real;
            let a = alpha(w * h) as real;
            let (t, blue, opacity) = (22real / 1000real, 20real / 1000real, 34real / 1000real);
            &&& r - t * total <= color.0 * total <= r + t * total
            &&& g - t * total <= color.1 * total <= g + t * total
            &&& b - blue * total <= color.2 * total <= b + blue * total
            &&& alpha(w * h) == 0 ==> color.0 <= t && color.1 <= t && color.2 <= blue
            &&& a - opacity * opaque <= color.3 * opaque <= a + opacity * opaque
        }),
{
    assert(0 < w * h) by (nonlinear_arith)
        requires
            0 < w,
            0 < h,
    ;
    rounded_average_is_close(m, k, w, h, rgba);
    let average = average_rgba(m, thumb_hash(m, w, h, rgba));
    let color = (
        k.value(average.0),
        k.value(average.1),
        k.value(average.2),
        k.value(average.3),
    );
    let (t, blue, opacity) = (22real / 1000real, 20real / 1000real, 34real / 1000real);
    lemma_close_to_bytes(color, rgba, w * h, alpha, weighted, t, blue, opacity);
}

/// A multiple of a number that is close to another is as close to the multiple of that, times the
/// factor.
proof fn lemma_near_multiple(v: real, x: real, factor: real, t: real)
    requires
        size(v - x) <= t,
        factor >= 0real,
    ensures
        x * factor - t * factor <= v * factor <= x * factor + t * factor,
{
    assert(x * factor - t * factor <= v * factor <= x * factor + t * factor) by (nonlinear_arith)
        requires
            x - t <= v <= x + t,
            factor >= 0real,
    ;
}

} // verus!
