//! A ThumbHash in formulas over the real numbers, with two-dimensional sums of cosines, and the
//! proof that the codec computes just these in exact arithmetic.
use crate::arithmetic::Model;
use crate::color::{clamped, has_alpha, plane_a, plane_l, plane_p, plane_q, to_component, to_rgb};
use crate::cosine::{cosine, frequency};
use crate::decoder::{
    average_a, average_l, channel_of, chroma_scale, decoded_pixel, pixel_a, pixel_l, pixel_p,
    pixel_q, signed_average, size_of_hash,
};
use crate::encoder::{
    encoded_alpha, encoded_header, encoded_nibbles, quantized_ac, short_extent, thumb_hash,
    used_luma,
};
use crate::exact::{
    contribution, half, is_exact, lemma_sum_eq, recurrence_gives_cosines,
    separable_forward_transform, separable_inverse_transform, sum,
};
use crate::fidelity::{channel_values_are_shown, lemma_magnitude, size};
use crate::forward::{channel_ac, channel_scale, coefficient, magnitude, other_coefficients};
use crate::geometry::{
    lemma_decoded_size, lemma_luma_extent, lemma_small_triangles, lemma_triangle_bounds,
    lemma_triangle_first, luma_limit, max_of, triangle, DECODED_SIDE, MAX_SIDE,
};
use crate::header::{header_of, header_reread, Header};
use crate::image::{shown_a, shown_l, shown_p, shown_q};
use crate::inverse::sample;
use crate::laws::lemma_triangle_sizes;
use crate::parts::{alpha_of, chroma_count, is_complete, layout, luma_count, nibbles_of};
use crate::saturate::{byte_of, short_of};
use vstd::prelude::*;

verus! {

/// The cosine that completes `c` half turns over `len` samples, in the middle of the sample `i`.
pub open spec fn wave(m: Model<real>, len: int, c: int, i: int) -> real {
    m.cos(m.pi / (len as real) * c as real * (i as real + half()))
}

/// The average, over all `w` by `h` pixels, of the sample times the horizontal cosine `cx` and the
/// vertical cosine `cy`.
pub open spec fn transform(
    m: Model<real>,
    samples: Seq<real>,
    w: int,
    h: int,
    cx: int,
    cy: int,
) -> real {
    sum(
        |y: int|
            sum(|x: int| samples[y * w + x] * wave(m, w, cx, x) * wave(m, h, cy, y), w),
        h,
    ) / ((w * h) as real)
}

/// The transforms for all frequencies but `(0, 0)` of a channel with `nx` by `ny` components, in
/// the order in which a hash holds them.
pub open spec fn transforms(
    m: Model<real>,
    samples: Seq<real>,
    w: int,
    h: int,
    nx: int,
    ny: int,
) -> Seq<real> {
    let list = triangle(nx, ny).drop_first();
    Seq::new(
        list.len(),
        |j: int| transform(m, samples, w, h, list[j].0 as int, list[j].1 as int),
    )
}

/// The largest magnitude among `values`, but at least zero.
pub open spec fn peak(values: Seq<real>) -> real
    decreases values.len(),
{
    if values.len() == 0 {
        0real
    } else if size(values.last()) < peak(values.drop_last()) {
        peak(values.drop_last())
    } else {
        size(values.last())
    }
}

/// The nibbles that record `values`: each as a part of the largest magnitude among them, from
/// zero for its negative to 15 for itself, and zero where all are zero.
pub open spec fn levels(m: Model<real>, values: Seq<real>) -> Seq<u8> {
    Seq::new(
        values.len(),
        |j: int|
            if peak(values) > 0real {
                byte_of(m.round(15real * (half() + half() / peak(values) * values[j])))
            } else {
                byte_of(m.round(0real))
            },
    )
}

/// The luminance of all pixels of an image over its average colour.
pub open spec fn shown_plane_l(rgba: Seq<u8>, n: int) -> Seq<real> {
    Seq::new(n as nat, |i: int| shown_l(rgba, n, i))
}

/// The first chroma value of all pixels of an image over its average colour.
pub open spec fn shown_plane_p(rgba: Seq<u8>, n: int) -> Seq<real> {
    Seq::new(n as nat, |i: int| shown_p(rgba, n, i))
}

/// The second chroma value of all pixels of an image over its average colour.
pub open spec fn shown_plane_q(rgba: Seq<u8>, n: int) -> Seq<real> {
    Seq::new(n as nat, |i: int| shown_q(rgba, n, i))
}

/// The alpha value of all pixels of an image.
pub open spec fn shown_plane_a(rgba: Seq<u8>, n: int) -> Seq<real> {
    Seq::new(n as nat, |i: int| shown_a(rgba, i))
}

/// The header of the hash of an image.
pub open spec fn formula_header(m: Model<real>, w: int, h: int, rgba: Seq<u8>) -> Header {
    let n = w * h;
    let alpha = has_alpha(rgba, n);
    let (nx, ny) = used_luma(w, h, alpha);
    let l = shown_plane_l(rgba, n);
    let p = shown_plane_p(rgba, n);
    let q = shown_plane_q(rgba, n);
    Header {
        l_dc: m.round(63real * transform(m, l, w, h, 0, 0)),
        p_dc: m.round(63real / 2real + 63real / 2real * transform(m, p, w, h, 0, 0)),
        q_dc: m.round(63real / 2real + 63real / 2real * transform(m, q, w, h, 0, 0)),
        l_scale: m.round(31real * peak(transforms(m, l, w, h, nx, ny))),
        has_alpha: alpha,
        extent: short_extent(w, h, alpha) as u16,
        p_scale: short_of(m.round(63real * peak(transforms(m, p, w, h, 3, 3)))),
        q_scale: short_of(m.round(63real * peak(transforms(m, q, w, h, 3, 3)))),
        is_landscape: w > h,
    }
}

/// The average and the scale of the alpha channel in the hash of an image.
pub open spec fn formula_alpha(m: Model<real>, w: int, h: int, rgba: Seq<u8>) -> Option<(u8, u8)> {
    let n = w * h;
    let a = shown_plane_a(rgba, n);
    if has_alpha(rgba, n) {
        Some(
            (
                byte_of(m.round(15real * transform(m, a, w, h, 0, 0))),
                byte_of(m.round(15real * peak(transforms(m, a, w, h, 5, 5)))),
            ),
        )
    } else {
        None
    }
}

/// The nibbles in the hash of an image.
pub open spec fn formula_nibbles(m: Model<real>, w: int, h: int, rgba: Seq<u8>) -> Seq<u8> {
    let n = w * h;
    let alpha = has_alpha(rgba, n);
    let (nx, ny) = used_luma(w, h, alpha);
    levels(m, transforms(m, shown_plane_l(rgba, n), w, h, nx, ny)) + levels(
        m,
        transforms(m, shown_plane_p(rgba, n), w, h, 3, 3),
    ) + levels(m, transforms(m, shown_plane_q(rgba, n), w, h, 3, 3)) + if alpha {
        levels(m, transforms(m, shown_plane_a(rgba, n), w, h, 5, 5))
    } else {
        Seq::empty()
    }
}

/// In exact arithmetic a table of cosines holds cosines.
pub proof fn lemma_wave(m: Model<real>, len: int, c: int, i: int)
    requires
        is_exact(m),
        0 < len <= u32::MAX,
        0 <= c <= u32::MAX,
        0 <= i,
    ensures
        cosine(m, len, c, i) == wave(m, len, c, i),
{
    recurrence_gives_cosines(m, frequency(m, c, len), i);
}

/// In exact arithmetic a coefficient is the two-dimensional transform.
pub proof fn coefficient_is_transform(
    m: Model<real>,
    samples: Seq<real>,
    w: int,
    h: int,
    cx: int,
    cy: int,
)
    requires
        is_exact(m),
        0 < w <= MAX_SIDE,
        0 < h <= MAX_SIDE,
        0 <= cx <= u32::MAX,
        0 <= cy <= u32::MAX,
    ensures
        coefficient(m, samples, w, h, cx, cy) == transform(m, samples, w, h, cx, cy),
{
    assert(w * h <= 10000) by (nonlinear_arith)
        requires
            0 < w <= 100,
            0 < h <= 100,
    ;
    separable_forward_transform(m, samples, w, h, cx, cy);
    let f = |y: int|
        sum(|x: int| samples[y * w + x] * cosine(m, w, cx, x) * cosine(m, h, cy, y), w);
    let g = |y: int| sum(|x: int| samples[y * w + x] * wave(m, w, cx, x) * wave(m, h, cy, y), w);
    assert forall|y: int| 0 <= y < h implies #[trigger] f(y) == g(y) by {
        let a = |x: int| samples[y * w + x] * cosine(m, w, cx, x) * cosine(m, h, cy, y);
        let b = |x: int| samples[y * w + x] * wave(m, w, cx, x) * wave(m, h, cy, y);
        lemma_wave(m, h, cy, y);
        assert forall|x: int| 0 <= x < w implies #[trigger] a(x) == b(x) by {
            lemma_wave(m, w, cx, x);
        }
        lemma_sum_eq(a, b, w);
    }
    lemma_sum_eq(f, g, h);
}

/// In exact arithmetic the largest magnitude is what its name says.
pub proof fn lemma_peak(m: Model<real>, values: Seq<real>)
    requires
        is_exact(m),
    ensures
        magnitude(m, values) == peak(values),
        forall|i: int| 0 <= i < values.len() ==> size(#[trigger] values[i]) <= peak(values),
    decreases values.len(),
{
    lemma_magnitude(m, values);
    if values.len() > 0 {
        lemma_peak(m, values.drop_last());
    }
}

/// In exact arithmetic a channel is its transforms, and is recorded in their levels.
proof fn lemma_channel(m: Model<real>, samples: Seq<real>, w: int, h: int, nx: int, ny: int)
    requires
        is_exact(m),
        0 < w <= MAX_SIDE,
        0 < h <= MAX_SIDE,
        1 <= nx <= 7,
        1 <= ny <= 7,
    ensures
        coefficient(m, samples, w, h, 0, 0) == transform(m, samples, w, h, 0, 0),
        channel_scale(m, samples, w, h, nx, ny) == peak(transforms(m, samples, w, h, nx, ny)),
        quantized_ac(m, channel_ac(m, samples, w, h, nx, ny)) == levels(
            m,
            transforms(m, samples, w, h, nx, ny),
        ),
{
    let list = triangle(nx, ny).drop_first();
    let values = other_coefficients(m, samples, w, h, nx, ny);
    let formulas = transforms(m, samples, w, h, nx, ny);
    lemma_triangle_bounds(nx, ny);
    lemma_triangle_first(nx, ny);
    coefficient_is_transform(m, samples, w, h, 0, 0);
    assert forall|j: int| 0 <= j < values.len() implies #[trigger] values[j] == formulas[j] by {
        assert(list[j] == triangle(nx, ny)[j + 1]);
        coefficient_is_transform(m, samples, w, h, list[j].0 as int, list[j].1 as int);
    }
    assert(values =~= formulas);
    lemma_peak(m, values);
    let ac = channel_ac(m, samples, w, h, nx, ny);
    let nibbles = quantized_ac(m, ac);
    let scale = peak(formulas);
    assert(m.ratio(1, 2) == half());
    assert forall|j: int| 0 <= j < nibbles.len() implies #[trigger] nibbles[j] == levels(
        m,
        formulas,
    )[j] by {
        assert(size(values[j]) <= scale);
        if scale > 0real {
            assert(ac[j] == half() + half() / scale * values[j]);
        } else {
            assert(ac[j] == 0real);
            assert(15real * 0real == 0real);
        }
    }
    assert(nibbles =~= levels(m, formulas));
}

/// In exact arithmetic the hash of an image without an empty side is the layout of its
/// two-dimensional transforms, each rounded to the closest step of the scale that it is recorded
/// on.
pub proof fn hash_is_quantized_transforms(m: Model<real>, w: int, h: int, rgba: Seq<u8>)
    requires
        is_exact(m),
        0 < w <= MAX_SIDE,
        0 < h <= MAX_SIDE,
    ensures
        encoded_header(m, w, h, rgba) == formula_header(m, w, h, rgba),
        encoded_alpha(m, w, h, rgba) == formula_alpha(m, w, h, rgba),
        encoded_nibbles(m, w, h, rgba) == formula_nibbles(m, w, h, rgba),
        thumb_hash(m, w, h, rgba) == layout(
            formula_header(m, w, h, rgba),
            formula_alpha(m, w, h, rgba),
            formula_nibbles(m, w, h, rgba),
        ),
{
    let n = w * h;
    assert(0 < n <= 10000) by (nonlinear_arith)
        requires
            n == w * h,
            0 < w <= 100,
            0 < h <= 100,
    ;
    let alpha = has_alpha(rgba, n);
    let (nx, ny) = used_luma(w, h, alpha);
    let l = plane_l(m, rgba, n);
    let p = plane_p(m, rgba, n);
    let q = plane_q(m, rgba, n);
    let a = plane_a(m, rgba, n);
    assert(l =~= shown_plane_l(rgba, n)) by {
        assert forall|i: int| 0 <= i < n implies #[trigger] l[i] == shown_plane_l(rgba, n)[i] by {
            channel_values_are_shown(m, rgba, n, i);
        }
    }
    assert(p =~= shown_plane_p(rgba, n)) by {
        assert forall|i: int| 0 <= i < n implies #[trigger] p[i] == shown_plane_p(rgba, n)[i] by {
            channel_values_are_shown(m, rgba, n, i);
        }
    }
    assert(q =~= shown_plane_q(rgba, n)) by {
        assert forall|i: int| 0 <= i < n implies #[trigger] q[i] == shown_plane_q(rgba, n)[i] by {
            channel_values_are_shown(m, rgba, n, i);
        }
    }
    assert(a =~= shown_plane_a(rgba, n)) by {
        assert forall|i: int| 0 <= i < n implies #[trigger] a[i] == shown_plane_a(rgba, n)[i] by {
            channel_values_are_shown(m, rgba, n, i);
        }
    }
    lemma_luma_extent(luma_limit(alpha), w, max_of(w, h));
    lemma_luma_extent(luma_limit(alpha), h, max_of(w, h));
    lemma_channel(m, l, w, h, nx, ny);
    lemma_channel(m, p, w, h, 3, 3);
    lemma_channel(m, q, w, h, 3, 3);
    lemma_channel(m, a, w, h, 5, 5);
    assert(m.ratio(63, 2) == 63real / 2real);
    assert(encoded_header(m, w, h, rgba) == formula_header(m, w, h, rgba));
    assert(encoded_alpha(m, w, h, rgba) == formula_alpha(m, w, h, rgba));
    assert(encoded_nibbles(m, w, h, rgba) == formula_nibbles(m, w, h, rgba));
}

/// The coefficient that a nibble stands for in a channel with the scale `scale`.
pub open spec fn level_value(bits: u8, scale: real) -> real {
    (bits as real / (15real / 2real) - 1real) * scale
}

/// The sample at the column `x` and the row `y` of a channel with `nx` by `ny` components and the
/// average `dc`, whose nibbles begin with that at the index `start`: the average plus, for each
/// nibble, twice the coefficient that it stands for times its two cosines.
pub open spec fn wave_sum(
    m: Model<real>,
    hash: Seq<u8>,
    start: int,
    dc: real,
    scale: real,
    nx: int,
    ny: int,
    x: int,
    y: int,
) -> real {
    let (w, h) = size_of_hash(hash);
    let list = triangle(nx, ny).drop_first();
    dc + sum(
        |j: int|
            2real * level_value(nibbles_of(hash)[start + j], scale) * wave(
                m,
                w,
                list[j].0 as int,
                x,
            ) * wave(m, h, list[j].1 as int, y),
        list.len() as int,
    )
}

/// The luminance of the pixel at the column `x` and the row `y`.
pub open spec fn formula_l(m: Model<real>, hash: Seq<u8>, x: int, y: int) -> real {
    let header = header_of(hash);
    let (nx, ny) = header.components();
    wave_sum(
        m,
        hash,
        0,
        header.l_dc as real / 63real,
        header.l_scale as real / 31real,
        nx,
        ny,
        x,
        y,
    )
}

/// The first chroma value of the pixel at the column `x` and the row `y`.
pub open spec fn formula_p(m: Model<real>, hash: Seq<u8>, x: int, y: int) -> real {
    let header = header_of(hash);
    wave_sum(
        m,
        hash,
        luma_count(header),
        header.p_dc as real / (63real / 2real) - 1real,
        header.p_scale as real / 63real * (5real / 4real),
        3,
        3,
        x,
        y,
    )
}

/// The second chroma value of the pixel at the column `x` and the row `y`.
pub open spec fn formula_q(m: Model<real>, hash: Seq<u8>, x: int, y: int) -> real {
    let header = header_of(hash);
    wave_sum(
        m,
        hash,
        luma_count(header) + chroma_count(),
        header.q_dc as real / (63real / 2real) - 1real,
        header.q_scale as real / 63real * (5real / 4real),
        3,
        3,
        x,
        y,
    )
}

/// The alpha value of the pixel at the column `x` and the row `y`.
pub open spec fn formula_a(m: Model<real>, hash: Seq<u8>, x: int, y: int) -> real {
    match alpha_of(hash) {
        Some((dc, scale)) => wave_sum(
            m,
            hash,
            luma_count(header_of(hash)) + 2 * chroma_count(),
            dc as real / 15real,
            scale as real / 15real,
            5,
            5,
            x,
            y,
        ),
        None => 1real,
    }
}

/// A number, brought into the range from zero to one, as a whole part of 255.
pub open spec fn formula_component(m: Model<real>, v: real) -> u8 {
    byte_of(
        m.truncate(
            255real * if v < 0real {
                0real
            } else if v > 1real {
                1real
            } else {
                v
            },
        ),
    )
}

/// The components of the pixel at the column `x` and the row `y` of the image that `hash` is
/// decoded to.
pub open spec fn formula_pixel(m: Model<real>, hash: Seq<u8>, x: int, y: int) -> Seq<u8> {
    let l = formula_l(m, hash, x, y);
    let p = formula_p(m, hash, x, y);
    let q = formula_q(m, hash, x, y);
    seq![
        formula_component(m, l + p / 3real + q / 2real),
        formula_component(m, l + p / 3real - q / 2real),
        formula_component(m, l - 2real / 3real * p),
        formula_component(m, formula_a(m, hash, x, y)),
    ]
}

/// In exact arithmetic the samples of a channel are sums of cosines.
proof fn lemma_sample_is_sum(
    m: Model<real>,
    hash: Seq<u8>,
    start: int,
    dc: real,
    scale: real,
    nx: int,
    ny: int,
    x: int,
    y: int,
)
    requires
        is_exact(m),
        3 <= nx <= 7,
        3 <= ny <= 7,
        0 <= start,
        start + triangle(nx, ny).len() - 1 <= nibbles_of(hash).len(),
        0 <= x < size_of_hash(hash).0 <= DECODED_SIDE,
        0 <= y < size_of_hash(hash).1 <= DECODED_SIDE,
    ensures
        ({
            let (w, h) = size_of_hash(hash);
            let ac = channel_of(m, hash, start, triangle(nx, ny).len() - 1, scale);
            sample(m, dc, ac, nx, ny, w, h, x, y) == wave_sum(
                m,
                hash,
                start,
                dc,
                scale,
                nx,
                ny,
                x,
                y,
            )
        }),
{
    let (w, h) = size_of_hash(hash);
    let n = triangle(nx, ny).len() - 1;
    let list = triangle(nx, ny).drop_first();
    let ac = channel_of(m, hash, start, n, scale);
    separable_inverse_transform(m, dc, ac, nx, ny, w, h, x, y);
    lemma_triangle_sizes(nx, ny);
    lemma_triangle_bounds(nx, ny);
    assert(m.ratio(15, 2) == 15real / 2real);
    let f = |j: int| contribution(m, list, ac, w, h, x, y, j);
    let g = |j: int|
        2real * level_value(nibbles_of(hash)[start + j], scale) * wave(m, w, list[j].0 as int, x)
            * wave(m, h, list[j].1 as int, y);
    assert forall|j: int| 0 <= j < n implies #[trigger] f(j) == g(j) by {
        assert(list[j] == triangle(nx, ny)[j + 1]);
        lemma_wave(m, w, list[j].0 as int, x);
        lemma_wave(m, h, list[j].1 as int, y);
        assert(ac[j] == level_value(nibbles_of(hash)[start + j], scale));
    }
    lemma_sum_eq(f, g, n);
}

/// In exact arithmetic a component is what its formula says.
proof fn lemma_component_formula(m: Model<real>, v: real)
    requires
        is_exact(m),
    ensures
        to_component(m, v) == formula_component(m, v),
{
    let c = clamped(m, v);
    assert(m.times(c, 255real) == 255real * c);
}

/// In exact arithmetic every pixel of the image that a hash is decoded to follows from sums of
/// cosines: the averages that the hash records plus, for each nibble, twice the coefficient that
/// it stands for times a horizontal and a vertical cosine.
pub proof fn decoded_pixel_is_sum(m: Model<real>, hash: Seq<u8>, x: int, y: int)
    requires
        is_exact(m),
        is_complete(hash),
        0 <= x < size_of_hash(hash).0,
        0 <= y < size_of_hash(hash).1,
    ensures
        pixel_l(m, hash, x, y) == formula_l(m, hash, x, y),
        pixel_p(m, hash, x, y) == formula_p(m, hash, x, y),
        pixel_q(m, hash, x, y) == formula_q(m, hash, x, y),
        pixel_a(m, hash, x, y) == formula_a(m, hash, x, y),
        decoded_pixel(m, hash, x, y) == formula_pixel(m, hash, x, y),
{
    let header = header_of(hash);
    header_reread(hash);
    let (nx, ny) = header.components();
    lemma_decoded_size(header.aspect().0, header.aspect().1);
    lemma_triangle_sizes(nx, ny);
    lemma_small_triangles();
    assert(m.ratio(63, 2) == 63real / 2real);
    assert(m.ratio(5, 4) == 5real / 4real);
    assert(m.ratio(2, 3) == 2real / 3real);
    lemma_sample_is_sum(
        m,
        hash,
        0,
        average_l(m, header),
        header.l_scale as real / 31real,
        nx,
        ny,
        x,
        y,
    );
    lemma_sample_is_sum(
        m,
        hash,
        luma_count(header),
        signed_average(m, header.p_dc as int),
        chroma_scale(m, header.p_scale as int),
        3,
        3,
        x,
        y,
    );
    lemma_sample_is_sum(
        m,
        hash,
        luma_count(header) + chroma_count(),
        signed_average(m, header.q_dc as int),
        chroma_scale(m, header.q_scale as int),
        3,
        3,
        x,
        y,
    );
    if let Some((dc, scale)) = alpha_of(hash) {
        lemma_sample_is_sum(
            m,
            hash,
            luma_count(header) + 2 * chroma_count(),
            average_a(m, hash),
            scale as real / 15real,
            5,
            5,
            x,
            y,
        );
    }
    let l = pixel_l(m, hash, x, y);
    let p = pixel_p(m, hash, x, y);
    let q = pixel_q(m, hash, x, y);
    let rgb = to_rgb(m, l, p, q);
    assert(rgb.r == l + p / 3real + q / 2real);
    assert(rgb.g == l + p / 3real - q / 2real);
    assert(rgb.b == l - 2real / 3real * p);
    lemma_component_formula(m, rgb.r);
    lemma_component_formula(m, rgb.g);
    lemma_component_formula(m, rgb.b);
    lemma_component_formula(m, pixel_a(m, hash, x, y));
    assert(decoded_pixel(m, hash, x, y) =~= formula_pixel(m, hash, x, y));
}

} // verus!
