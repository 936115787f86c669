//! The preview that a hash is decoded to and the average colour that is read from it: where each
//! pixel lies, and what it is computed from.
use crate::arithmetic::Model;
use crate::color::{clamped, to_component, to_rgb};
use crate::decoder::{
    average_rgba, decoded_pixel, decoded_rgba, pixel_a, pixel_l, pixel_p, pixel_q, size_of_hash,
};
use crate::exact::is_exact;
use crate::format::{header_fields_are_digits, recorded_components_are_in_bytes};
use crate::formulas::{decoded_pixel_is_sum, formula_pixel};
use crate::geometry::{lemma_small_triangles, triangle};
use crate::header::header_of;
use crate::inverse::{dequantized_ac, sample};
use crate::parts::{has_averages, is_complete, nibbles_of};
use crate::rounded::{is_rounded, Meaning};
use crate::rounded_formulas::rounded_pixel_is_near_formula;
use vstd::arithmetic::div_mod::lemma_fundamental_div_mod_converse;
use vstd::prelude::*;

verus! {

/// The bytes of a preview hold one row after the other from the top down, each from its first
/// column to its last, and of each pixel red, green, blue and alpha, in every arithmetic: the
/// pixel at the column `x` and the row `y` of `w` by `h` begins at the byte `4 * (y * w + x)`.
pub proof fn preview_pixels_lie_row_by_row<N>(m: Model<N>, hash: Seq<u8>, x: int, y: int, c: int)
    requires
        0 <= x < size_of_hash(hash).0,
        0 <= y < size_of_hash(hash).1,
        0 <= c < 4,
    ensures
        ({
            let (w, h) = size_of_hash(hash);
            &&& decoded_rgba(m, hash).len() == 4 * (w * h)
            &&& 0 <= 4 * (y * w + x) + c < 4 * (w * h)
            &&& decoded_rgba(m, hash)[4 * (y * w + x) + c] == decoded_pixel(m, hash, x, y)[c]
        }),
{
    let (w, h) = size_of_hash(hash);
    let i = y * w + x;
    let k = 4 * i + c;
    assert(0 <= i < w * h) by (nonlinear_arith)
        requires
            i == y * w + x,
            0 <= x < w,
            0 <= y < h,
    ;
    assert(w * y == y * w) by (nonlinear_arith);
    assert(w * h * 4 == 4 * (w * h)) by (nonlinear_arith);
    lemma_fundamental_div_mod_converse(i, w, y, x);
    assert(k / 4 == i && k % 4 == c);
}

/// A preview without pixels has no bytes.
pub proof fn empty_previews_have_no_bytes<N>(m: Model<N>, hash: Seq<u8>)
    requires
        size_of_hash(hash).0 == 0 || size_of_hash(hash).1 == 0,
    ensures
        decoded_rgba(m, hash).len() == 0,
{
    let (w, h) = size_of_hash(hash);
    assert(w * h * 4 == 0) by (nonlinear_arith)
        requires
            w == 0 || h == 0,
    ;
}

/// In exact arithmetic each byte of a preview is that of the formula at its own column and row.
pub proof fn preview_bytes_follow_the_formula(m: Model<real>, hash: Seq<u8>, x: int, y: int, c: int)
    requires
        is_exact(m),
        is_complete(hash),
        0 <= x < size_of_hash(hash).0,
        0 <= y < size_of_hash(hash).1,
        0 <= c < 4,
    ensures
        decoded_rgba(m, hash)[4 * (y * size_of_hash(hash).0 + x) + c] == formula_pixel(
            m,
            hash,
            x,
            y,
        )[c],
{
    preview_pixels_lie_row_by_row(m, hash, x, y, c);
    decoded_pixel_is_sum(m, hash, x, y);
}

/// In rounded arithmetic each byte of a preview differs from that of the formula at its own
/// column and row by 11 at most, and by 5 at most in alpha.
pub proof fn rounded_preview_bytes_are_near_the_formula<N>(
    m: Model<N>,
    k: Meaning<N>,
    hash: Seq<u8>,
    x: int,
    y: int,
    c: int,
)
    requires
        is_rounded(m, k),
        is_complete(hash),
        0 <= x < size_of_hash(hash).0,
        0 <= y < size_of_hash(hash).1,
        0 <= c < 4,
    ensures
        ({
            let byte = decoded_rgba(m, hash)[4 * (y * size_of_hash(hash).0 + x) + c];
            let exact = formula_pixel(k.exact, hash, x, y)[c];
            &&& -11 <= byte - exact <= 11
            &&& c == 3 ==> -5 <= byte - exact <= 5
        }),
{
    preview_pixels_lie_row_by_row(m, hash, x, y, c);
    rounded_pixel_is_near_formula(m, k, hash, x, y);
}

/// In every arithmetic a colour is computed from its luminance and its chroma values so: blue is
/// the luminance less two thirds of the first chroma value, red is half of what three times the
/// luminance less blue and plus the second chroma value is, and green is red less that.
pub proof fn colour_of_channel_values<N>(m: Model<N>, l: N, p: N, q: N, r: N, g: N, b: N)
    requires
        b == m.minus(l, m.times(m.over(m.from_int(2), m.from_int(3)), p)),
        r == m.over(m.plus(m.minus(m.times(m.from_int(3), l), b), q), m.from_int(2)),
        g == m.minus(r, q),
    ensures
        to_rgb(m, l, p, q).r == r,
        to_rgb(m, l, p, q).g == g,
        to_rgb(m, l, p, q).b == b,
{
}

/// In exact arithmetic the luminance and the chroma values of a colour are those that it was
/// computed from.
pub proof fn colour_has_its_channel_values(m: Model<real>, l: real, p: real, q: real)
    requires
        is_exact(m),
    ensures
        ({
            let rgb = to_rgb(m, l, p, q);
            &&& rgb.r + rgb.g + rgb.b == 3real * l
            &&& rgb.r + rgb.g - 2real * rgb.b == 2real * p
            &&& rgb.r - rgb.g == q
        }),
{
    assert(m.ratio(2, 3) == 2real / 3real);
}

/// In every arithmetic a component is brought into the range from zero to one, and is then the
/// integer part of 255 times it, and 255 where that is larger.
pub proof fn components_are_parts_of_255<N>(m: Model<N>, value: N)
    ensures
        clamped(m, value) == m.clamp(value, m.from_int(0), m.from_int(1)),
        ({
            let part = m.clamp(value, m.from_int(0), m.from_int(1));
            let n = m.truncate(m.times(part, m.from_int(255)));
            &&& n <= 255 ==> to_component(m, value) == n
            &&& n >= 255 ==> to_component(m, value) == 255
        }),
{
}

/// In exact arithmetic a component is the integer part of 255 times the number, zero below zero
/// and 255 above one.
pub proof fn components_are_integer_parts(m: Model<real>, value: real)
    requires
        is_exact(m),
    ensures
        value <= 0real ==> to_component(m, value) == 0,
        value >= 1real ==> to_component(m, value) == 255,
        0real <= value <= 1real ==> to_component(m, value) as real <= 255real * value
            < to_component(m, value) as real + 1real,
{
    let part = clamped(m, value);
    assert(m.times(part, 255real) == 255real * part);
    assert(0real <= 255real * part <= 255real);
    assert(m.truncate(255real * part) as real <= 255real * part);
    assert(255real * part < m.truncate(255real * part) as real + 1real);
}

/// In every arithmetic the pixel of a preview is that of its luminance, its chroma values and its
/// alpha value, red first and alpha last.
pub proof fn preview_pixels_are_colours<N>(m: Model<N>, hash: Seq<u8>, x: int, y: int)
    ensures
        ({
            let (l, p, q) = (
                pixel_l(m, hash, x, y),
                pixel_p(m, hash, x, y),
                pixel_q(m, hash, x, y),
            );
            let pixel = decoded_pixel(m, hash, x, y);
            &&& pixel.len() == 4
            &&& pixel[0] == to_component(m, to_rgb(m, l, p, q).r)
            &&& pixel[1] == to_component(m, to_rgb(m, l, p, q).g)
            &&& pixel[2] == to_component(m, to_rgb(m, l, p, q).b)
            &&& pixel[3] == to_component(m, pixel_a(m, hash, x, y))
        }),
{
}

/// In every arithmetic the channel values of a pixel of a preview are the samples at its column
/// and row of four channels. Their averages are the recorded averages by 63 for the luminance, by
/// half of 63 less one for the chroma values and by 15 for alpha; their scales are the recorded
/// scales by 31, by 63 and times five quarters, and by 15; and their coefficients are read from
/// the nibbles of the luminance, of the chroma channels and of alpha, one after the other.
pub proof fn preview_channels_are_sampled<N>(
    m: Model<N>,
    hash: Seq<u8>,
    luma: int,
    x: int,
    y: int,
)
    requires
        is_complete(hash),
        luma + 1 == triangle(header_of(hash).components().0, header_of(hash).components().1).len(),
    ensures
        ({
            let (w, h) = size_of_hash(hash);
            let (nx, ny) = header_of(hash).components();
            let header = header_of(hash);
            let nibbles = nibbles_of(hash);
            let middle = m.over(m.from_int(63), m.from_int(2));
            let wider = m.over(m.from_int(5), m.from_int(4));
            let l_dc = m.over(m.from_int(header.l_dc as int), m.from_int(63));
            let p_dc = m.minus(m.over(m.from_int(header.p_dc as int), middle), m.from_int(1));
            let q_dc = m.minus(m.over(m.from_int(header.q_dc as int), middle), m.from_int(1));
            let l_scale = m.over(m.from_int(header.l_scale as int), m.from_int(31));
            let p_scale = m.times(
                m.over(m.from_int(header.p_scale as int), m.from_int(63)),
                wider,
            );
            let q_scale = m.times(
                m.over(m.from_int(header.q_scale as int), m.from_int(63)),
                wider,
            );
            let l_ac = dequantized_ac(m, nibbles.subrange(0, luma), l_scale);
            let p_ac = dequantized_ac(m, nibbles.subrange(luma, luma + 5), p_scale);
            let q_ac = dequantized_ac(m, nibbles.subrange(luma + 5, luma + 10), q_scale);
            &&& pixel_l(m, hash, x, y) == sample(m, l_dc, l_ac, nx, ny, w, h, x, y)
            &&& pixel_p(m, hash, x, y) == sample(m, p_dc, p_ac, 3, 3, w, h, x, y)
            &&& pixel_q(m, hash, x, y) == sample(m, q_dc, q_ac, 3, 3, w, h, x, y)
            &&& hash[2] < 128 ==> pixel_a(m, hash, x, y) == m.from_int(1)
            &&& hash[2] >= 128 ==> ({
                let a_dc = m.over(m.from_int((hash[5] % 16) as int), m.from_int(15));
                let a_scale = m.over(m.from_int((hash[5] / 16) as int), m.from_int(15));
                let a_ac = dequantized_ac(m, nibbles.subrange(luma + 10, luma + 24), a_scale);
                pixel_a(m, hash, x, y) == sample(m, a_dc, a_ac, 5, 5, w, h, x, y)
            })
        }),
{
    lemma_small_triangles();
    recorded_components_are_in_bytes(hash);
}

/// In every arithmetic the average colour of a hash is that of its recorded averages, each value
/// brought into the range from zero to one; the alpha value is that of the lower half of the sixth
/// byte where the highest bit of the third is set, and else one.
pub proof fn average_colour_is_of_recorded_averages<N>(
    m: Model<N>,
    hash: Seq<u8>,
    l: N,
    p: N,
    q: N,
)
    requires
        has_averages(hash),
        l == m.over(m.from_int(header_of(hash).l_dc as int), m.from_int(63)),
        p == m.minus(
            m.over(
                m.from_int(header_of(hash).p_dc as int),
                m.over(m.from_int(63), m.from_int(2)),
            ),
            m.from_int(1),
        ),
        q == m.minus(
            m.over(
                m.from_int(header_of(hash).q_dc as int),
                m.over(m.from_int(63), m.from_int(2)),
            ),
            m.from_int(1),
        ),
    ensures
        ({
            let (zero, one) = (m.from_int(0), m.from_int(1));
            let color = average_rgba(m, hash);
            &&& color.0 == m.clamp(to_rgb(m, l, p, q).r, zero, one)
            &&& color.1 == m.clamp(to_rgb(m, l, p, q).g, zero, one)
            &&& color.2 == m.clamp(to_rgb(m, l, p, q).b, zero, one)
            &&& hash[2] < 128 ==> color.3 == one
            &&& hash[2] >= 128 ==> color.3 == m.over(
                m.from_int((hash[5] % 16) as int),
                m.from_int(15),
            )
        }),
{
    recorded_components_are_in_bytes(hash);
}

/// In exact arithmetic the average colour of a hash follows from the digits of its first three
/// bytes: it is the one whose luminance is the first digit by 63, whose first chroma value is
/// twice the second digit by 63 less one and whose second chroma value is twice the third digit by
/// 63 less one, each component brought into the range from zero to one.
pub proof fn average_colour_is_of_digits(
    m: Model<real>,
    hash: Seq<u8>,
    d: (int, int, int, int),
    color: (real, real, real),
)
    requires
        is_exact(m),
        has_averages(hash),
        0 <= d.0 < 64,
        0 <= d.1 < 64,
        0 <= d.2 < 64,
        0 <= d.3 < 64,
        hash[0] + 256 * hash[1] + 65536 * hash[2] == d.0 + 64 * d.1 + 4096 * d.2 + 262144 * d.3,
        63real * (color.0 + color.1 + color.2) == 3real * d.0 as real,
        63real * (color.0 + color.1 - 2real * color.2) == 4real * d.1 as real - 126real,
        63real * (color.0 - color.1) == 2real * d.2 as real - 63real,
    ensures
        ({
            let average = average_rgba(m, hash);
            &&& 0real <= average.0 <= 1real && 0real <= average.1 <= 1real && 0real <= average.2
                <= 1real
            &&& 0real <= color.0 <= 1real ==> average.0 == color.0
            &&& 0real <= color.1 <= 1real ==> average.1 == color.1
            &&& 0real <= color.2 <= 1real ==> average.2 == color.2
            &&& color.0 < 0real ==> average.0 == 0real
            &&& color.1 < 0real ==> average.1 == 0real
            &&& color.2 < 0real ==> average.2 == 0real
            &&& color.0 > 1real ==> average.0 == 1real
            &&& color.1 > 1real ==> average.1 == 1real
            &&& color.2 > 1real ==> average.2 == 1real
            &&& hash[2] < 128 ==> average.3 == 1real
            &&& hash[2] >= 128 ==> 15real * average.3 == (hash[5] % 16) as real
        }),
{
    let header = header_of(hash);
    header_fields_are_digits(hash);
    recorded_components_are_in_bytes(hash);
    let top = header.l_scale + if header.has_alpha {
        32int
    } else {
        0
    };
    lemma_same_digits(
        (header.l_dc as int, header.p_dc as int, header.q_dc as int, top),
        d,
    );
    let l = header.l_dc as real / 63real;
    let p = header.p_dc as real / (63real / 2real) - 1real;
    let q = header.q_dc as real / (63real / 2real) - 1real;
    assert(m.ratio(63, 2) == 63real / 2real);
    average_colour_is_of_recorded_averages(m, hash, l, p, q);
    let rgb = to_rgb(m, l, p, q);
    assert(rgb.r == color.0 && rgb.g == color.1 && rgb.b == color.2) by {
        colour_has_its_channel_values(m, l, p, q);
    }
}

/// A number has one sequence of digits.
proof fn lemma_same_digits(a: (int, int, int, int), b: (int, int, int, int))
    requires
        0 <= a.0 < 64,
        0 <= a.1 < 64,
        0 <= a.2 < 64,
        0 <= b.0 < 64,
        0 <= b.1 < 64,
        0 <= b.2 < 64,
        a.0 + 64 * a.1 + 4096 * a.2 + 262144 * a.3 == b.0 + 64 * b.1 + 4096 * b.2 + 262144 * b.3,
    ensures
        a == b,
{
    let x = a.1 + 64 * a.2 + 4096 * a.3;
    let y = b.1 + 64 * b.2 + 4096 * b.3;
    assert(a.0 + 64 * x == b.0 + 64 * y);
    assert(x == y);
    assert(a.2 + 64 * a.3 == b.2 + 64 * b.3);
}

} // verus!
