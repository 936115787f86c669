//! What each step of the transforms computes from the one before it, in every arithmetic: which
//! operations, on which numbers and in which order.
use crate::arithmetic::{describes, Arithmetic, Model};
use crate::color::{has_alpha, plane_a, plane_l, plane_p, plane_q};
use crate::cosine::{cos_entry, cosine, cosines, has_shape, is_cos_table};
use crate::encoder::{
    encoded_alpha, encoded_header, encoded_nibbles, short_extent, thumb_hash, used_luma,
};
use crate::forward::{
    channel_ac, channel_scale, coefficient, column_sums, dot, is_channel, is_transformable,
    magnitude, other_coefficients, Channel,
};
use crate::geometry::{lemma_triangle_first, triangle, DECODED_SIDE, MAX_SIDE};
use crate::inverse::{are_combined, dequantized_ac, frequency_sum, partial_sample, sample};
use crate::parts::layout;
use vstd::prelude::*;

verus! {

/// The functions of a model are those of its fields, and a quotient of integers is computed from
/// these.
pub proof fn operations_are_the_fields<N>(m: Model<N>, a: N, b: N, c: N, n: u32, d: u32)
    ensures
        m.from_int(n as int) == (m.from_int)(n),
        m.plus(a, b) == (m.plus)(a, b),
        m.minus(a, b) == (m.minus)(a, b),
        m.times(a, b) == (m.times)(a, b),
        m.over(a, b) == (m.over)(a, b),
        m.cos(a) == (m.cos)(a),
        m.abs(a) == (m.abs)(a),
        m.larger(a, b) == (m.larger)(a, b),
        m.clamp(a, b, c) == (m.clamp)(a, b, c),
        m.exceeds(a, b) == (m.exceeds)(a, b),
        m.round(a) == (m.round)(a),
        m.truncate(a) == (m.truncate)(a),
        m.ratio(n as int, d as int) == (m.over)((m.from_int)(n), (m.from_int)(d)),
{
}

/// A model describes an arithmetic just where no operation can give anything but what the model
/// names.
pub proof fn a_model_names_every_result<A: Arithmetic>(m: Model<A::Num>)
    requires
        forall|n: u32, r: A::Num| #[trigger]
            call_ensures(A::from_int, (n,), r) ==> r == (m.from_int)(n),
        forall|r: A::Num| #[trigger] call_ensures(A::pi, (), r) ==> r == m.pi,
        forall|a: A::Num, b: A::Num, r: A::Num| #[trigger]
            call_ensures(A::plus, (a, b), r) ==> r == (m.plus)(a, b),
        forall|a: A::Num, b: A::Num, r: A::Num| #[trigger]
            call_ensures(A::minus, (a, b), r) ==> r == (m.minus)(a, b),
        forall|a: A::Num, b: A::Num, r: A::Num| #[trigger]
            call_ensures(A::times, (a, b), r) ==> r == (m.times)(a, b),
        forall|a: A::Num, b: A::Num, r: A::Num| #[trigger]
            call_ensures(A::over, (a, b), r) ==> r == (m.over)(a, b),
        forall|a: A::Num, r: A::Num| #[trigger]
            call_ensures(A::cos, (a,), r) ==> r == (m.cos)(a),
        forall|a: A::Num, r: A::Num| #[trigger]
            call_ensures(A::abs, (a,), r) ==> r == (m.abs)(a),
        forall|a: A::Num, b: A::Num, r: A::Num| #[trigger]
            call_ensures(A::larger, (a, b), r) ==> r == (m.larger)(a, b),
        forall|a: A::Num, lo: A::Num, hi: A::Num, r: A::Num| #[trigger]
            call_ensures(A::clamp, (a, lo, hi), r) ==> r == (m.clamp)(a, lo, hi),
        forall|a: A::Num, b: A::Num, r: bool| #[trigger]
            call_ensures(A::exceeds, (a, b), r) ==> r == (m.exceeds)(a, b),
        forall|a: A::Num, r: u32| #[trigger]
            call_ensures(A::round, (a,), r) ==> r == (m.round)(a),
        forall|a: A::Num, r: u32| #[trigger]
            call_ensures(A::truncate, (a,), r) ==> r == (m.truncate)(a),
    ensures
        describes::<A>(m),
{
}

/// Images of up to 100 by 100 pixels are encoded, and previews have up to 32 by 32 pixels. A
/// channel can be transformed just where its tables of cosines and of column sums have 700 entries
/// at most and its components can be counted.
pub proof fn sizes_are_limited(w: int, h: int, nx: int, ny: int)
    ensures
        MAX_SIDE == 100,
        DECODED_SIDE == 32,
        is_transformable(w, h, nx, ny) <==> {
            &&& nx * w <= 700 && ny * h <= 700 && ny * w <= 700
            &&& 1 <= nx <= u32::MAX && 1 <= ny <= u32::MAX && nx * ny <= usize::MAX
        },
{
}

/// A row of cosines begins with those of half its frequency and of one and a half times that, and
/// each further entry is twice the cosine of the frequency times the entry before it, less the
/// one before that.
pub proof fn cosines_follow_from_two_before<N>(m: Model<N>, freq: N, i: int)
    ensures
        ({
            let half = m.times(freq, m.over(m.from_int(1), m.from_int(2)));
            &&& cos_entry(m, freq, 0) == m.cos(half)
            &&& cos_entry(m, freq, 1) == m.cos(m.plus(freq, half))
            &&& i >= 0 ==> cos_entry(m, freq, i + 2) == m.minus(
                m.times(m.times(m.from_int(2), m.cos(freq)), cos_entry(m, freq, i + 1)),
                cos_entry(m, freq, i),
            )
        }),
{
}

/// The cosine with frequency `c` at `len` samples is that of the multiple `c` of half a turn by
/// `len`, and a table holds one row of these for each frequency.
pub proof fn tables_hold_multiples_of_half_a_turn<N>(
    m: Model<N>,
    table: Seq<Vec<N>>,
    count: int,
    len: int,
    c: int,
    i: int,
)
    requires
        0 <= c < count,
        0 <= len,
    ensures
        cosine(m, len, c, i) == cos_entry(
            m,
            m.times(m.over(m.pi, m.from_int(len)), m.from_int(c)),
            i,
        ),
        cosines(m, len, c).len() == len,
        0 <= i < len ==> cosines(m, len, c)[i] == cosine(m, len, c, i),
        is_cos_table(m, table, count, len) ==> table[c]@.len() == len,
        is_cos_table(m, table, count, len) && 0 <= i < len ==> table[c]@[i] == cosine(m, len, c, i),
        has_shape(table, count, len) ==> table.len() == count && table[c]@.len() == len,
{
}

/// A table with a row of `len` cosines for each frequency below `count` is one.
pub proof fn rows_of_cosines_are_a_table<N>(
    m: Model<N>,
    table: Seq<Vec<N>>,
    count: int,
    len: int,
)
    requires
        0 <= len,
        table.len() == count,
        forall|c: int| 0 <= c < count ==> (#[trigger] table[c])@.len() == len,
        forall|c: int, i: int|
            0 <= c < count && 0 <= i < len ==> #[trigger] table[c]@[i] == cosine(m, len, c, i),
    ensures
        has_shape(table, count, len),
        is_cos_table(m, table, count, len),
{
    assert forall|c: int| 0 <= c < count implies (#[trigger] table[c])@ == cosines(m, len, c) by {
        assert forall|i: int| 0 <= i < len implies table[c]@[i] == cosines(m, len, c)[i] by {
            assert(table[c]@[i] == cosine(m, len, c, i));
        }
        assert(table[c]@ =~= cosines(m, len, c));
    }
}

/// A sum of products begins with zero, and each pair of numbers adds its product.
pub proof fn each_pair_adds_its_product<N>(m: Model<N>, a: Seq<N>, b: Seq<N>, n: int)
    requires
        0 <= n,
    ensures
        dot(m, a, b, 0) == m.from_int(0),
        dot(m, a, b, n + 1) == m.plus(dot(m, a, b, n), m.times(a[n], b[n])),
{
}

/// A coefficient is computed from the samples, listed row by row, in two steps: each column is
/// summed up against the vertical cosine, from the first row to the last, and these sums against
/// the horizontal cosine, from the first column to the last. The result is divided among all
/// samples.
pub proof fn coefficients_are_sums_of_column_sums<N>(
    m: Model<N>,
    samples: Seq<N>,
    w: int,
    h: int,
    cx: int,
    cy: int,
    column: spec_fn(int, int) -> N,
    total: spec_fn(int) -> N,
)
    requires
        0 <= w,
        0 <= h,
        forall|x: int| 0 <= x < w ==> #[trigger] column(x, 0) == m.from_int(0),
        forall|x: int, y: int|
            0 <= x < w && 0 <= y < h ==> #[trigger] column(x, y + 1) == m.plus(
                column(x, y),
                m.times(samples[y * w + x], cosine(m, h, cy, y)),
            ),
        total(0) == m.from_int(0),
        forall|x: int|
            0 <= x < w ==> #[trigger] total(x + 1) == m.plus(
                total(x),
                m.times(column(x, h), cosine(m, w, cx, x)),
            ),
    ensures
        coefficient(m, samples, w, h, cx, cy) == m.times(
            total(w),
            m.over(m.from_int(1), m.from_int(w * h)),
        ),
{
    let sums = column_sums(m, samples, w, h, cy);
    assert forall|x: int| 0 <= x < w implies #[trigger] sums[x] == column(x, h) by {
        lemma_column_total(m, samples, w, h, cy, x, column, h);
    }
    lemma_row_total(m, sums, w, cx, column, h, total, w);
}

proof fn lemma_column_total<N>(
    m: Model<N>,
    samples: Seq<N>,
    w: int,
    h: int,
    cy: int,
    x: int,
    column: spec_fn(int, int) -> N,
    n: int,
)
    requires
        0 <= x < w,
        0 <= n <= h,
        column(x, 0) == m.from_int(0),
        forall|y: int|
            0 <= y < h ==> #[trigger] column(x, y + 1) == m.plus(
                column(x, y),
                m.times(samples[y * w + x], cosine(m, h, cy, y)),
            ),
    ensures
        dot(m, crate::forward::column(samples, w, h, x), cosines(m, h, cy), n) == column(x, n),
    decreases n,
{
    if n > 0 {
        lemma_column_total(m, samples, w, h, cy, x, column, n - 1);
        assert(column(x, (n - 1) + 1) == m.plus(
            column(x, n - 1),
            m.times(samples[(n - 1) * w + x], cosine(m, h, cy, n - 1)),
        ));
    }
}

proof fn lemma_row_total<N>(
    m: Model<N>,
    sums: Seq<N>,
    w: int,
    cx: int,
    column: spec_fn(int, int) -> N,
    h: int,
    total: spec_fn(int) -> N,
    n: int,
)
    requires
        0 <= n <= w,
        forall|x: int| 0 <= x < w ==> #[trigger] sums[x] == column(x, h),
        total(0) == m.from_int(0),
        forall|x: int|
            0 <= x < w ==> #[trigger] total(x + 1) == m.plus(
                total(x),
                m.times(column(x, h), cosine(m, w, cx, x)),
            ),
    ensures
        dot(m, sums, cosines(m, w, cx), n) == total(n),
    decreases n,
{
    if n > 0 {
        lemma_row_total(m, sums, w, cx, column, h, total, n - 1);
        assert(total((n - 1) + 1) == m.plus(
            total(n - 1),
            m.times(column(n - 1, h), cosine(m, w, cx, n - 1)),
        ));
        assert(sums[n - 1] == column(n - 1, h));
    }
}

/// The other coefficients of a channel are those of the frequencies of the format after the
/// first, in that order.
pub proof fn other_coefficients_are_in_order<N>(
    m: Model<N>,
    samples: Seq<N>,
    w: int,
    h: int,
    nx: int,
    ny: int,
    j: int,
)
    requires
        1 <= nx,
        1 <= ny,
    ensures
        other_coefficients(m, samples, w, h, nx, ny).len() == triangle(nx, ny).len() - 1,
        0 <= j < triangle(nx, ny).len() - 1 ==> other_coefficients(m, samples, w, h, nx, ny)[j]
            == coefficient(
            m,
            samples,
            w,
            h,
            triangle(nx, ny)[j + 1].0 as int,
            triangle(nx, ny)[j + 1].1 as int,
        ),
{
    lemma_triangle_first(nx, ny);
}

/// The scale of a channel is the largest magnitude of its other coefficients, taken one after the
/// other and starting with zero.
pub proof fn scale_is_the_running_largest<N>(
    m: Model<N>,
    samples: Seq<N>,
    w: int,
    h: int,
    nx: int,
    ny: int,
    largest: spec_fn(int) -> N,
)
    requires
        1 <= nx,
        1 <= ny,
        largest(0) == m.from_int(0),
        forall|j: int|
            0 <= j < triangle(nx, ny).len() - 1 ==> #[trigger] largest(j + 1) == m.larger(
                m.abs(other_coefficients(m, samples, w, h, nx, ny)[j]),
                largest(j),
            ),
    ensures
        channel_scale(m, samples, w, h, nx, ny) == largest(triangle(nx, ny).len() - 1),
{
    lemma_triangle_first(nx, ny);
    let values = other_coefficients(m, samples, w, h, nx, ny);
    lemma_running_largest(m, values, largest, values.len() as int);
    assert(values.take(values.len() as int) =~= values);
}

proof fn lemma_running_largest<N>(
    m: Model<N>,
    values: Seq<N>,
    largest: spec_fn(int) -> N,
    n: int,
)
    requires
        0 <= n <= values.len(),
        largest(0) == m.from_int(0),
        forall|j: int|
            0 <= j < values.len() ==> #[trigger] largest(j + 1) == m.larger(
                m.abs(values[j]),
                largest(j),
            ),
    ensures
        magnitude(m, values.take(n)) == largest(n),
    decreases n,
{
    if n > 0 {
        lemma_running_largest(m, values, largest, n - 1);
        assert(values.take(n).drop_last() =~= values.take(n - 1));
        assert(values.take(n).last() == values[n - 1]);
        assert(largest((n - 1) + 1) == m.larger(m.abs(values[n - 1]), largest(n - 1)));
    }
}

/// The coefficients of a channel are recorded as parts of its scale: one half plus the
/// coefficient times one half by the scale, or as they are where the scale does not exceed zero.
pub proof fn coefficients_are_parts_of_the_scale<N>(
    m: Model<N>,
    samples: Seq<N>,
    w: int,
    h: int,
    nx: int,
    ny: int,
    j: int,
)
    requires
        1 <= nx,
        1 <= ny,
    ensures
        ({
            let value = other_coefficients(m, samples, w, h, nx, ny)[j];
            let scale = channel_scale(m, samples, w, h, nx, ny);
            let half = m.over(m.from_int(1), m.from_int(2));
            let parts = channel_ac(m, samples, w, h, nx, ny);
            &&& parts.len() == triangle(nx, ny).len() - 1
            &&& 0 <= j < parts.len() && m.exceeds(scale, m.from_int(0)) ==> parts[j] == m.plus(
                half,
                m.times(m.over(half, scale), value),
            )
            &&& 0 <= j < parts.len() && !m.exceeds(scale, m.from_int(0)) ==> parts[j] == value
        }),
{
    lemma_triangle_first(nx, ny);
}

/// A channel holds its first coefficient, its scale and its other coefficients as parts of that.
pub proof fn a_channel_holds_its_coefficients<N>(
    m: Model<N>,
    samples: Seq<N>,
    w: int,
    h: int,
    nx: int,
    ny: int,
    channel: Channel<N>,
)
    ensures
        is_channel(m, samples, w, h, nx, ny, channel) <==> {
            &&& channel.dc == coefficient(m, samples, w, h, 0, 0)
            &&& channel.scale == channel_scale(m, samples, w, h, nx, ny)
            &&& channel.ac@ == channel_ac(m, samples, w, h, nx, ny)
        },
{
}

/// The averages and the scales of a hash are those of the channels of its image, each times the
/// steps of its scale and rounded, and its flags and components those of the image.
pub proof fn header_records_the_channels<N>(m: Model<N>, w: int, h: int, rgba: Seq<u8>)
    ensures
        ({
            let n = w * h;
            let alpha = has_alpha(rgba, n);
            let (nx, ny) = used_luma(w, h, alpha);
            let (l, p, q) = (plane_l(m, rgba, n), plane_p(m, rgba, n), plane_q(m, rgba, n));
            let header = encoded_header(m, w, h, rgba);
            let middle = m.over(m.from_int(63), m.from_int(2));
            let p_scale = m.round(m.times(m.from_int(63), channel_scale(m, p, w, h, 3, 3)));
            let q_scale = m.round(m.times(m.from_int(63), channel_scale(m, q, w, h, 3, 3)));
            &&& header.l_dc == m.round(m.times(m.from_int(63), coefficient(m, l, w, h, 0, 0)))
            &&& header.p_dc == m.round(
                m.plus(middle, m.times(middle, coefficient(m, p, w, h, 0, 0))),
            )
            &&& header.q_dc == m.round(
                m.plus(middle, m.times(middle, coefficient(m, q, w, h, 0, 0))),
            )
            &&& header.l_scale == m.round(
                m.times(m.from_int(31), channel_scale(m, l, w, h, nx, ny)),
            )
            &&& p_scale <= 65535 ==> header.p_scale == p_scale
            &&& p_scale >= 65535 ==> header.p_scale == 65535
            &&& q_scale <= 65535 ==> header.q_scale == q_scale
            &&& q_scale >= 65535 ==> header.q_scale == 65535
            &&& header.has_alpha == alpha
            &&& header.is_landscape == (w > h)
            &&& header.extent == short_extent(w, h, alpha) as u16
        }),
{
}

/// The alpha byte of a hash holds the average and the scale of the alpha channel, each times 15
/// and rounded, where the image has such a channel.
pub proof fn alpha_byte_records_the_alpha_channel<N>(m: Model<N>, w: int, h: int, rgba: Seq<u8>)
    ensures
        !has_alpha(rgba, w * h) ==> encoded_alpha(m, w, h, rgba) is None,
        has_alpha(rgba, w * h) ==> ({
            let a = plane_a(m, rgba, w * h);
            let dc = m.round(m.times(m.from_int(15), coefficient(m, a, w, h, 0, 0)));
            let scale = m.round(m.times(m.from_int(15), channel_scale(m, a, w, h, 5, 5)));
            &&& encoded_alpha(m, w, h, rgba) matches Some((low, high)) && {
                &&& dc <= 255 ==> low == dc
                &&& dc >= 255 ==> low == 255
                &&& scale <= 255 ==> high == scale
                &&& scale >= 255 ==> high == 255
            }
        }),
{
}

/// The nibbles of a hash are those of the luminance, of the two chroma channels and of the alpha
/// channel, where the image has one, one after the other: each coefficient, as a part of the
/// scale, times 15 and rounded.
pub proof fn nibbles_record_the_coefficients<N>(
    m: Model<N>,
    w: int,
    h: int,
    rgba: Seq<u8>,
    parts: Seq<N>,
    j: int,
)
    requires
        ({
            let n = w * h;
            let alpha = has_alpha(rgba, n);
            let (nx, ny) = used_luma(w, h, alpha);
            parts == channel_ac(m, plane_l(m, rgba, n), w, h, nx, ny) + channel_ac(
                m,
                plane_p(m, rgba, n),
                w,
                h,
                3,
                3,
            ) + channel_ac(m, plane_q(m, rgba, n), w, h, 3, 3) + if alpha {
                channel_ac(m, plane_a(m, rgba, n), w, h, 5, 5)
            } else {
                Seq::empty()
            }
        }),
    ensures
        encoded_nibbles(m, w, h, rgba).len() == parts.len(),
        0 <= j < parts.len() ==> ({
            let level = m.round(m.times(m.from_int(15), parts[j]));
            &&& level <= 255 ==> encoded_nibbles(m, w, h, rgba)[j] == level
            &&& level >= 255 ==> encoded_nibbles(m, w, h, rgba)[j] == 255
        }),
{
}

/// The hash of an image is laid out in its header, its alpha byte and its nibbles.
pub proof fn a_hash_is_laid_out<N>(m: Model<N>, w: int, h: int, rgba: Seq<u8>)
    ensures
        thumb_hash(m, w, h, rgba) == layout(
            encoded_header(m, w, h, rgba),
            encoded_alpha(m, w, h, rgba),
            encoded_nibbles(m, w, h, rgba),
        ),
{
}

/// A nibble stands for its quotient by seven and a half less one, times the scale.
pub proof fn nibbles_stand_for_parts_of_the_scale<N>(
    m: Model<N>,
    nibbles: Seq<u8>,
    scale: N,
    j: int,
)
    ensures
        dequantized_ac(m, nibbles, scale).len() == nibbles.len(),
        0 <= j < nibbles.len() ==> dequantized_ac(m, nibbles, scale)[j] == m.times(
            m.minus(
                m.over(
                    m.from_int(nibbles[j] as int),
                    m.over(m.from_int(15), m.from_int(2)),
                ),
                m.from_int(1),
            ),
            scale,
        ),
{
}

/// The coefficients with one vertical frequency are combined one after the other, starting with
/// zero: each of them adds its product with its horizontal cosine, and the others add nothing.
pub proof fn combined_coefficients_are_running_sums<N>(
    m: Model<N>,
    list: Seq<(usize, usize)>,
    ac: Seq<N>,
    w: int,
    cy: int,
    x: int,
    j: int,
)
    requires
        0 <= j,
    ensures
        frequency_sum(m, list, ac, w, cy, x, 0) == m.from_int(0),
        list[j].1 == cy ==> frequency_sum(m, list, ac, w, cy, x, j + 1) == m.plus(
            frequency_sum(m, list, ac, w, cy, x, j),
            m.times(ac[j], cosine(m, w, list[j].0 as int, x)),
        ),
        list[j].1 != cy ==> frequency_sum(m, list, ac, w, cy, x, j + 1) == frequency_sum(
            m,
            list,
            ac,
            w,
            cy,
            x,
            j,
        ),
{
}

/// Rows are combined where each of their entries is the sum over all coefficients.
pub proof fn combined_rows_hold_sums<N>(
    m: Model<N>,
    list: Seq<(usize, usize)>,
    ac: Seq<N>,
    w: int,
    rows: Seq<Vec<N>>,
    ny: int,
)
    ensures
        are_combined(m, list, ac, w, rows, ny) <==> forall|cy: int, x: int|
            0 <= cy < ny && 0 <= x < w ==> #[trigger] rows[cy]@[x] == frequency_sum(
                m,
                list,
                ac,
                w,
                cy,
                x,
                ac.len() as int,
            ),
{
}

/// A sample is computed from the average and the coefficients, in the order of the format without
/// the first: starting with the average, each vertical frequency adds the sum of its coefficients
/// times their horizontal cosines, times twice its vertical cosine.
pub proof fn samples_are_running_sums<N>(
    m: Model<N>,
    dc: N,
    ac: Seq<N>,
    nx: int,
    ny: int,
    w: int,
    h: int,
    x: int,
    y: int,
    part: spec_fn(int, int) -> N,
    total: spec_fn(int) -> N,
)
    requires
        1 <= nx,
        1 <= ny,
        forall|cy: int| 0 <= cy < ny ==> #[trigger] part(cy, 0) == m.from_int(0),
        forall|cy: int, j: int|
            0 <= cy < ny && 0 <= j < triangle(nx, ny).len() - 1 ==> #[trigger] part(cy, j + 1)
                == if triangle(nx, ny)[j + 1].1 == cy {
                m.plus(
                    part(cy, j),
                    m.times(ac[j], cosine(m, w, triangle(nx, ny)[j + 1].0 as int, x)),
                )
            } else {
                part(cy, j)
            },
        total(0) == dc,
        forall|cy: int|
            0 <= cy < ny ==> #[trigger] total(cy + 1) == m.plus(
                total(cy),
                m.times(
                    part(cy, triangle(nx, ny).len() - 1),
                    m.times(cosine(m, h, cy, y), m.from_int(2)),
                ),
            ),
    ensures
        sample(m, dc, ac, nx, ny, w, h, x, y) == total(ny),
{
    lemma_triangle_first(nx, ny);
    lemma_sample_total(m, dc, ac, nx, ny, w, h, x, y, part, total, ny);
}

proof fn lemma_frequency_total<N>(
    m: Model<N>,
    ac: Seq<N>,
    nx: int,
    ny: int,
    w: int,
    x: int,
    cy: int,
    part: spec_fn(int, int) -> N,
    n: int,
)
    requires
        0 <= n <= triangle(nx, ny).len() - 1,
        part(cy, 0) == m.from_int(0),
        forall|j: int|
            0 <= j < triangle(nx, ny).len() - 1 ==> #[trigger] part(cy, j + 1) == if triangle(
                nx,
                ny,
            )[j + 1].1 == cy {
                m.plus(
                    part(cy, j),
                    m.times(ac[j], cosine(m, w, triangle(nx, ny)[j + 1].0 as int, x)),
                )
            } else {
                part(cy, j)
            },
    ensures
        frequency_sum(m, triangle(nx, ny).drop_first(), ac, w, cy, x, n) == part(cy, n),
    decreases n,
{
    if n > 0 {
        let list = triangle(nx, ny).drop_first();
        let j = n - 1;
        lemma_frequency_total(m, ac, nx, ny, w, x, cy, part, j);
        assert(list[j] == triangle(nx, ny)[j + 1]);
        assert(part(cy, j + 1) == part(cy, n));
    }
}

proof fn lemma_sample_total<N>(
    m: Model<N>,
    dc: N,
    ac: Seq<N>,
    nx: int,
    ny: int,
    w: int,
    h: int,
    x: int,
    y: int,
    part: spec_fn(int, int) -> N,
    total: spec_fn(int) -> N,
    n: int,
)
    requires
        0 <= n <= ny,
        1 <= triangle(nx, ny).len(),
        forall|cy: int| 0 <= cy < ny ==> #[trigger] part(cy, 0) == m.from_int(0),
        forall|cy: int, j: int|
            0 <= cy < ny && 0 <= j < triangle(nx, ny).len() - 1 ==> #[trigger] part(cy, j + 1)
                == if triangle(nx, ny)[j + 1].1 == cy {
                m.plus(
                    part(cy, j),
                    m.times(ac[j], cosine(m, w, triangle(nx, ny)[j + 1].0 as int, x)),
                )
            } else {
                part(cy, j)
            },
        total(0) == dc,
        forall|cy: int|
            0 <= cy < ny ==> #[trigger] total(cy + 1) == m.plus(
                total(cy),
                m.times(
                    part(cy, triangle(nx, ny).len() - 1),
                    m.times(cosine(m, h, cy, y), m.from_int(2)),
                ),
            ),
    ensures
        partial_sample(m, dc, triangle(nx, ny).drop_first(), ac, w, h, x, y, n) == total(n),
    decreases n,
{
    if n > 0 {
        let cy = n - 1;
        lemma_sample_total(m, dc, ac, nx, ny, w, h, x, y, part, total, cy);
        lemma_frequency_total(m, ac, nx, ny, w, x, cy, part, triangle(nx, ny).len() - 1);
        assert(total(cy + 1) == total(n));
    }
}

/// A sample grows with each vertical frequency by the sum of its coefficients, times twice its
/// vertical cosine.
pub proof fn each_vertical_frequency_adds_its_sum<N>(
    m: Model<N>,
    dc: N,
    list: Seq<(usize, usize)>,
    ac: Seq<N>,
    w: int,
    h: int,
    x: int,
    y: int,
    cy: int,
)
    requires
        0 <= cy,
    ensures
        partial_sample(m, dc, list, ac, w, h, x, y, 0) == dc,
        partial_sample(m, dc, list, ac, w, h, x, y, cy + 1) == m.plus(
            partial_sample(m, dc, list, ac, w, h, x, y, cy),
            m.times(
                frequency_sum(m, list, ac, w, cy, x, list.len() as int),
                m.times(cosine(m, h, cy, y), m.from_int(2)),
            ),
        ),
{
}

} // verus!
