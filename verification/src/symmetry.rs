//! How the coefficients of a channel follow its samples, in exact arithmetic.
use crate::arithmetic::Model;
use crate::cosine::{cosine, cosines};
use crate::exact::{half, is_exact, lemma_sum_eq, lemma_sum_swap, separable_forward_transform, sum};
use crate::fidelity::{lemma_magnitude, lemma_magnitude_limit, size};
use crate::forward::{
    channel_ac, channel_scale, coefficient, column, column_sums, dot, magnitude, other_coefficients,
};
use crate::geometry::{in_triangle, lemma_triangle_first, row_len, rows, triangle};
use crate::laws::{coefficients_are_in_order, coefficients_are_those_below_the_diagonal};
use vstd::arithmetic::div_mod::lemma_fundamental_div_mod_converse;
use vstd::prelude::*;

verus! {

/// The samples of a channel, each times `c`.
pub open spec fn scaled(samples: Seq<real>, c: real) -> Seq<real> {
    Seq::new(samples.len(), |i: int| c * samples[i])
}

/// A common factor of the first numbers of all products is a factor of their sum.
proof fn lemma_scaled_dot(
    m: Model<real>,
    a: Seq<real>,
    other: Seq<real>,
    b: Seq<real>,
    c: real,
    n: int,
)
    requires
        is_exact(m),
        forall|i: int| 0 <= i < n ==> #[trigger] other[i] == c * a[i],
    ensures
        dot(m, other, b, n) == c * dot(m, a, b, n),
    decreases n,
{
    if n > 0 {
        lemma_scaled_dot(m, a, other, b, c, n - 1);
        let rest = dot(m, a, b, n - 1);
        let u = a[n - 1];
        let v = b[n - 1];
        assert(other[n - 1] == c * u);
        assert(c * rest + c * u * v == c * (rest + u * v)) by (nonlinear_arith);
    } else {
        assert(c * 0real == 0real) by (nonlinear_arith);
    }
}

/// In exact arithmetic a factor of all samples is a factor of every coefficient.
pub proof fn scaled_coefficient(
    m: Model<real>,
    samples: Seq<real>,
    c: real,
    w: int,
    h: int,
    cx: int,
    cy: int,
)
    requires
        is_exact(m),
        0 <= w,
        0 <= h,
        w * h <= samples.len(),
    ensures
        coefficient(m, scaled(samples, c), w, h, cx, cy) == c * coefficient(
            m,
            samples,
            w,
            h,
            cx,
            cy,
        ),
{
    let other = scaled(samples, c);
    let sums = column_sums(m, samples, w, h, cy);
    let other_sums = column_sums(m, other, w, h, cy);
    assert forall|x: int| 0 <= x < w implies #[trigger] other_sums[x] == c * sums[x] by {
        let col = column(samples, w, h, x);
        let other_col = column(other, w, h, x);
        assert forall|y: int| 0 <= y < h implies #[trigger] other_col[y] == c * col[y] by {
            assert(0 <= y * w + x < w * h) by (nonlinear_arith)
                requires
                    0 <= x < w,
                    0 <= y < h,
            ;
        }
        lemma_scaled_dot(m, col, other_col, cosines(m, h, cy), c, h);
    }
    lemma_scaled_dot(m, sums, other_sums, cosines(m, w, cx), c, w);
    let total = dot(m, sums, cosines(m, w, cx), w);
    let share = m.ratio(1, w * h);
    assert(c * total * share == c * (total * share)) by (nonlinear_arith);
}

/// The largest magnitude grows with the magnitude of a common factor.
proof fn lemma_scaled_magnitude(m: Model<real>, values: Seq<real>, other: Seq<real>, c: real)
    requires
        is_exact(m),
        values.len() == other.len(),
        forall|i: int| 0 <= i < values.len() ==> #[trigger] other[i] == c * values[i],
    ensures
        magnitude(m, other) == size(c) * magnitude(m, values),
    decreases values.len(),
{
    let f = size(c);
    if values.len() > 0 {
        let rest = values.drop_last();
        lemma_scaled_magnitude(m, rest, other.drop_last(), c);
        let v = values.last();
        assert(other.last() == c * v);
        let before = magnitude(m, rest);
        assert(size(c * v) == f * size(v) && (size(v) < before ==> f * size(v) <= f * before) && (
        before <= size(v) ==> f * before <= f * size(v))) by (nonlinear_arith)
            requires
                f == size(c),
        ;
    } else {
        assert(f * 0real == 0real) by (nonlinear_arith);
    }
}

/// In exact arithmetic a factor of all samples is a factor of the average, and its magnitude is a
/// factor of the scale. A positive factor keeps the coefficients as parts of the scale; a
/// negative one turns each of them about one half, unless the scale is zero.
pub proof fn scaled_channel(
    m: Model<real>,
    samples: Seq<real>,
    c: real,
    w: int,
    h: int,
    nx: int,
    ny: int,
)
    requires
        is_exact(m),
        0 <= w,
        0 <= h,
        w * h <= samples.len(),
    ensures
        ({
            let scale = channel_scale(m, samples, w, h, nx, ny);
            let ac = channel_ac(m, samples, w, h, nx, ny);
            let other_ac = channel_ac(m, scaled(samples, c), w, h, nx, ny);
            &&& coefficient(m, scaled(samples, c), w, h, 0, 0) == c * coefficient(
                m,
                samples,
                w,
                h,
                0,
                0,
            )
            &&& channel_scale(m, scaled(samples, c), w, h, nx, ny) == size(c) * scale
            &&& other_ac.len() == ac.len()
            &&& c > 0real ==> other_ac == ac
            &&& c < 0real && scale > 0real ==> forall|j: int|
                0 <= j < ac.len() ==> #[trigger] other_ac[j] == 1real - ac[j]
        }),
{
    let other = scaled(samples, c);
    let values = other_coefficients(m, samples, w, h, nx, ny);
    let other_values = other_coefficients(m, other, w, h, nx, ny);
    let list = triangle(nx, ny).drop_first();
    let scale = channel_scale(m, samples, w, h, nx, ny);
    let other_scale = channel_scale(m, other, w, h, nx, ny);
    let ac = channel_ac(m, samples, w, h, nx, ny);
    let other_ac = channel_ac(m, other, w, h, nx, ny);
    scaled_coefficient(m, samples, c, w, h, 0, 0);
    assert forall|j: int| 0 <= j < values.len() implies #[trigger] other_values[j] == c
        * values[j] by {
        scaled_coefficient(m, samples, c, w, h, list[j].0 as int, list[j].1 as int);
    }
    lemma_scaled_magnitude(m, values, other_values, c);
    lemma_magnitude(m, values);
    let f = size(c);
    assert(c != 0real ==> (scale > 0real <==> f * scale > 0real)) by (nonlinear_arith)
        requires
            f == size(c),
            0real <= scale,
    ;
    assert forall|j: int| 0 <= j < values.len() && c != 0real implies {
        &&& c > 0real ==> #[trigger] other_ac[j] == ac[j]
        &&& c < 0real && scale > 0real ==> other_ac[j] == 1real - ac[j]
    } by {
        let v = values[j];
        assert(other_values[j] == c * v);
        if scale > 0real {
            assert(m.ratio(1, 2) == half());
            assert(half() / (f * scale) * (c * v) == if c > 0real {
                half() / scale * v
            } else {
                -(half() / scale * v)
            }) by (nonlinear_arith)
                requires
                    f == size(c),
                    c != 0real,
                    0real < scale,
            {
                let g = half() / scale;
                assert(half() / (f * scale) == g / f);
                assert(g / f * (c * v) == g * v * (c / f));
                assert(c > 0real ==> c / f == 1real);
                assert(c < 0real ==> c / f == -1real);
            }
        } else {
            assert(v == 0real);
            assert(c * v == 0real) by (nonlinear_arith)
                requires
                    v == 0real,
            ;
        }
    }
    if c > 0real {
        assert(other_ac =~= ac);
    }
}

/// In exact arithmetic doubling all samples doubles the average and the scale, and keeps the
/// coefficients as parts of the scale.
pub proof fn doubled_channel(m: Model<real>, samples: Seq<real>, w: int, h: int, nx: int, ny: int)
    requires
        is_exact(m),
        0 <= w,
        0 <= h,
        w * h <= samples.len(),
    ensures
        ({
            let doubled = scaled(samples, 2real);
            &&& coefficient(m, doubled, w, h, 0, 0) == 2real * coefficient(m, samples, w, h, 0, 0)
            &&& channel_scale(m, doubled, w, h, nx, ny) == 2real * channel_scale(
                m,
                samples,
                w,
                h,
                nx,
                ny,
            )
            &&& channel_ac(m, doubled, w, h, nx, ny) == channel_ac(m, samples, w, h, nx, ny)
        }),
{
    scaled_channel(m, samples, 2real, w, h, nx, ny);
}

/// In exact arithmetic negating all samples negates the average, keeps the scale and, unless the
/// scale is zero, turns each coefficient as a part of the scale from `ac` into `1 - ac`.
pub proof fn negated_channel(m: Model<real>, samples: Seq<real>, w: int, h: int, nx: int, ny: int)
    requires
        is_exact(m),
        0 <= w,
        0 <= h,
        w * h <= samples.len(),
    ensures
        ({
            let negated = scaled(samples, -1real);
            let ac = channel_ac(m, samples, w, h, nx, ny);
            let negated_ac = channel_ac(m, negated, w, h, nx, ny);
            let scale = channel_scale(m, samples, w, h, nx, ny);
            &&& coefficient(m, negated, w, h, 0, 0) == -coefficient(m, samples, w, h, 0, 0)
            &&& channel_scale(m, negated, w, h, nx, ny) == scale
            &&& negated_ac.len() == ac.len()
            &&& scale > 0real ==> forall|j: int|
                0 <= j < ac.len() ==> #[trigger] negated_ac[j] == 1real - ac[j]
        }),
{
    scaled_channel(m, samples, -1real, w, h, nx, ny);
}

/// The sample at the column `x` and the row `y` of a channel with rows of `w` samples.
pub open spec fn sample_at<N>(samples: Seq<N>, w: int, x: int, y: int) -> N {
    samples[y * w + x]
}

/// Whether the samples of `other`, of which `h` make up a row, are those of `samples`, of which
/// `w` make up a row, with rows and columns exchanged.
pub open spec fn is_transposed<N>(samples: Seq<N>, other: Seq<N>, w: int, h: int) -> bool {
    forall|x: int, y: int|
        0 <= x < w && 0 <= y < h ==> sample_at(other, h, y, x) == #[trigger] sample_at(
            samples,
            w,
            x,
            y,
        )
}

/// In exact arithmetic exchanging rows and columns of the samples exchanges the two frequencies of
/// every coefficient.
pub proof fn transposed_coefficient(
    m: Model<real>,
    samples: Seq<real>,
    other: Seq<real>,
    w: int,
    h: int,
    cx: int,
    cy: int,
)
    requires
        is_exact(m),
        0 < w,
        0 < h,
        w * h <= u32::MAX,
        is_transposed(samples, other, w, h),
    ensures
        coefficient(m, other, h, w, cy, cx) == coefficient(m, samples, w, h, cx, cy),
{
    assert(h * w == w * h) by (nonlinear_arith);
    separable_forward_transform(m, samples, w, h, cx, cy);
    separable_forward_transform(m, other, h, w, cy, cx);
    let g = |x: int, y: int| samples[y * w + x] * cosine(m, w, cx, x) * cosine(m, h, cy, y);
    lemma_sum_swap(g, w, h);
    let rows = |y: int|
        sum(|x: int| samples[y * w + x] * cosine(m, w, cx, x) * cosine(m, h, cy, y), w);
    let rows_g = |y: int| sum(|x: int| g(x, y), w);
    assert forall|y: int| 0 <= y < h implies #[trigger] rows(y) == rows_g(y) by {
        lemma_sum_eq(
            |x: int| samples[y * w + x] * cosine(m, w, cx, x) * cosine(m, h, cy, y),
            |x: int| g(x, y),
            w,
        );
    }
    lemma_sum_eq(rows, rows_g, h);
    let columns = |x: int|
        sum(|y: int| other[x * h + y] * cosine(m, h, cy, y) * cosine(m, w, cx, x), h);
    let columns_g = |x: int| sum(|y: int| g(x, y), h);
    assert forall|x: int| 0 <= x < w implies #[trigger] columns(x) == columns_g(x) by {
        let terms = |y: int| other[x * h + y] * cosine(m, h, cy, y) * cosine(m, w, cx, x);
        let terms_g = |y: int| g(x, y);
        assert forall|y: int| 0 <= y < h implies #[trigger] terms(y) == terms_g(y) by {
            let s = sample_at(samples, w, x, y);
            let u = cosine(m, w, cx, x);
            let v = cosine(m, h, cy, y);
            assert(other[x * h + y] == s);
            assert(s * v * u == s * u * v) by (nonlinear_arith);
        }
        lemma_sum_eq(terms, terms_g, h);
    }
    lemma_sum_eq(columns, columns_g, w);
}

/// A channel whose numbers of components are exchanged has a coefficient for the exchanged
/// frequencies of each coefficient, and for no others.
pub proof fn transposed_frequencies(nx: int, ny: int, cx: usize, cy: usize)
    requires
        0 <= nx <= usize::MAX,
        0 <= ny <= usize::MAX,
    ensures
        triangle(ny, nx).contains((cy, cx)) <==> triangle(nx, ny).contains((cx, cy)),
{
    coefficients_are_those_below_the_diagonal(nx, ny, cx, cy);
    coefficients_are_those_below_the_diagonal(ny, nx, cy, cx);
    let x = cx as int;
    let y = cy as int;
    assert(in_triangle(nx, ny, x, y) ==> in_triangle(ny, nx, y, x)) by (nonlinear_arith)
        requires
            0 <= nx,
            0 <= ny,
            0 <= x,
            0 <= y,
    {
        if 0 <= y < ny && x * ny < nx * (ny - y) {
            assert(x < nx);
            assert(y * nx < ny * (nx - x));
        }
    }
    assert(in_triangle(ny, nx, y, x) ==> in_triangle(nx, ny, x, y)) by (nonlinear_arith)
        requires
            0 <= nx,
            0 <= ny,
            0 <= x,
            0 <= y,
    {
        if 0 <= x < nx && y * nx < ny * (nx - x) {
            assert(y < ny);
            assert(x * ny < nx * (ny - y));
        }
    }
}

/// A channel with as many components along its width as along its height, `n`, has
/// `n * (n + 1) / 2` coefficients.
pub proof fn square_channel_len(n: int)
    requires
        0 <= n,
    ensures
        2 * triangle(n, n).len() == n * (n + 1),
{
    lemma_square_rows(n, n);
    assert(2 * (n * n) - n * (n - 1) == n * (n + 1)) by (nonlinear_arith);
}

proof fn lemma_square_rows(n: int, cy: int)
    requires
        0 <= cy <= n,
    ensures
        2 * rows(n, n, cy).len() == 2 * (n * cy) - cy * (cy - 1),
    decreases cy,
{
    if cy > 0 {
        lemma_square_rows(n, cy - 1);
        let k = n - (cy - 1);
        assert(n * k + n - 1 == k * n + (n - 1)) by (nonlinear_arith);
        lemma_fundamental_div_mod_converse(n * k + n - 1, n, k, n - 1);
        assert(row_len(n, n, cy - 1) == k);
        assert(2 * (n * (cy - 1)) - (cy - 1) * (cy - 2) + 2 * k == 2 * (n * cy) - cy * (cy - 1))
            by (nonlinear_arith)
            requires
                k == n - (cy - 1),
        ;
    } else {
        assert(n * 0 == 0 && 0 * (0 - 1) == 0);
    }
}

/// In exact arithmetic exchanging rows and columns of the samples, and the numbers of components
/// with them, keeps the average and the scale of a channel, and exchanges the two frequencies of
/// every other coefficient.
pub proof fn transposed_channel(
    m: Model<real>,
    samples: Seq<real>,
    other: Seq<real>,
    w: int,
    h: int,
    nx: int,
    ny: int,
)
    requires
        is_exact(m),
        0 < w,
        0 < h,
        w * h <= u32::MAX,
        1 <= nx <= usize::MAX,
        1 <= ny <= usize::MAX,
        is_transposed(samples, other, w, h),
    ensures
        coefficient(m, other, h, w, 0, 0) == coefficient(m, samples, w, h, 0, 0),
        channel_scale(m, other, h, w, ny, nx) == channel_scale(m, samples, w, h, nx, ny),
        forall|i: int, j: int|
            #![trigger channel_ac(m, samples, w, h, nx, ny)[i], channel_ac(m, other, h, w, ny, nx)[j]]
            are_exchanged(nx, ny, i, j) ==> channel_ac(m, other, h, w, ny, nx)[j] == channel_ac(
                m,
                samples,
                w,
                h,
                nx,
                ny,
            )[i],
{
    let values = other_coefficients(m, samples, w, h, nx, ny);
    let other_values = other_coefficients(m, other, h, w, ny, nx);
    let list = triangle(nx, ny).drop_first();
    let other_list = triangle(ny, nx).drop_first();
    lemma_triangle_first(nx, ny);
    lemma_triangle_first(ny, nx);
    transposed_coefficient(m, samples, other, w, h, 0, 0);
    lemma_magnitude(m, values);
    lemma_magnitude(m, other_values);
    assert forall|i: int| 0 <= i < values.len() implies size(#[trigger] values[i]) <= magnitude(
        m,
        other_values,
    ) by {
        let j = lemma_exchanged_index(nx, ny, i);
        transposed_coefficient(m, samples, other, w, h, list[i].0 as int, list[i].1 as int);
        assert(size(other_values[j]) <= magnitude(m, other_values));
    }
    assert forall|j: int| 0 <= j < other_values.len() implies size(#[trigger] other_values[j])
        <= magnitude(m, values) by {
        let i = lemma_exchanged_index(ny, nx, j);
        transposed_coefficient(m, samples, other, w, h, list[i].0 as int, list[i].1 as int);
        assert(size(values[i]) <= magnitude(m, values));
    }
    lemma_magnitude_limit(m, values, magnitude(m, other_values));
    lemma_magnitude_limit(m, other_values, magnitude(m, values));
    assert forall|i: int, j: int|
        #![trigger channel_ac(m, samples, w, h, nx, ny)[i], channel_ac(m, other, h, w, ny, nx)[j]]
        are_exchanged(nx, ny, i, j) implies channel_ac(m, other, h, w, ny, nx)[j] == channel_ac(
        m,
        samples,
        w,
        h,
        nx,
        ny,
    )[i] by {
        transposed_coefficient(m, samples, other, w, h, list[i].0 as int, list[i].1 as int);
        assert(other_values[j] == values[i]);
    }
}

/// Whether the coefficient `i` of a channel with `nx` by `ny` components and the coefficient `j`
/// of one with `ny` by `nx` components, the average left out, have exchanged frequencies.
pub open spec fn are_exchanged(nx: int, ny: int, i: int, j: int) -> bool {
    let list = triangle(nx, ny).drop_first();
    let other = triangle(ny, nx).drop_first();
    &&& 0 <= i < list.len()
    &&& 0 <= j < other.len()
    &&& other[j] == (list[i].1, list[i].0)
}

/// Each coefficient but the average has one with exchanged frequencies.
pub proof fn lemma_exchanged_index(nx: int, ny: int, i: int) -> (j: int)
    requires
        1 <= nx <= usize::MAX,
        1 <= ny <= usize::MAX,
        0 <= i < triangle(nx, ny).len() - 1,
    ensures
        are_exchanged(nx, ny, i, j),
{
    let all = triangle(nx, ny);
    let other = triangle(ny, nx);
    let (cx, cy) = all[i + 1];
    lemma_triangle_first(nx, ny);
    lemma_triangle_first(ny, nx);
    assert(all.contains((cx, cy)));
    transposed_frequencies(nx, ny, cx, cy);
    let k = choose|k: int| 0 <= k < other.len() && other[k] == (cy, cx);
    coefficients_are_in_order(nx, ny, 0, i + 1);
    assert(k != 0);
    k - 1
}

} // verus!
