//! What the transforms compute in exact arithmetic.
use crate::arithmetic::Model;
use crate::cosine::{cos_entry, cosine, cosines};
use crate::forward::{coefficient, column, column_sums, dot};
use crate::geometry::{lemma_triangle_bounds, lemma_triangle_first, triangle};
use crate::inverse::{frequency_sum, partial_sample, sample};
use vstd::prelude::*;

verus! {

/// One half.
pub open spec fn half() -> real {
    1real / 2real
}

/// Whether the product of the cosines of `a` and `b` is half the sum of the cosines of their sum
/// and their difference.
pub open spec fn product_rule(m: Model<real>, a: real, b: real) -> bool {
    2real * m.cos(a) * m.cos(b) == m.cos(a + b) + m.cos(a - b)
}

/// Whether the cosine falls from `a` to `b`, where both lie in the first half turn.
pub open spec fn falling_rule(m: Model<real>, a: real, b: real) -> bool {
    0real <= a < b <= m.pi ==> m.cos(a) > m.cos(b)
}

/// Whether `m` computes with real numbers, exactly. Of the cosine it is asked that it lies
/// between minus one and one, that it falls from one at zero to minus one after half a turn, and
/// that products of cosines are sums of cosines; of a quotient, nothing where the divisor is
/// zero; of a conversion to an integer, nothing outside the range of the result.
pub open spec fn is_exact(m: Model<real>) -> bool {
    &&& forall|n: u32| #[trigger] (m.from_int)(n) == n as real
    &&& forall|a: real, b: real| #[trigger] m.plus(a, b) == a + b
    &&& forall|a: real, b: real| #[trigger] m.minus(a, b) == a - b
    &&& forall|a: real, b: real| #[trigger] m.times(a, b) == a * b
    &&& forall|a: real, b: real| b != 0real ==> #[trigger] m.over(a, b) == a / b
    &&& forall|a: real| -1real <= #[trigger] m.cos(a) <= 1real
    &&& m.cos(0real) == 1real
    &&& m.pi > 0real
    &&& m.cos(m.pi) == -1real
    &&& forall|a: real, b: real| #[trigger] falling_rule(m, a, b)
    &&& forall|a: real, b: real| #[trigger] product_rule(m, a, b)
    &&& forall|a: real| #[trigger] m.abs(a) == if a < 0real {
        -a
    } else {
        a
    }
    &&& forall|a: real, b: real| #[trigger] m.larger(a, b) == if a < b {
        b
    } else {
        a
    }
    &&& forall|a: real, lo: real, hi: real|
        lo <= hi ==> #[trigger] m.clamp(a, lo, hi) == if a < lo {
            lo
        } else if a > hi {
            hi
        } else {
            a
        }
    &&& forall|a: real, b: real| #[trigger] m.exceeds(a, b) == (a > b)
    &&& forall|a: real|
        0real <= a <= 4294967295real ==> a - half() < #[trigger] m.round(a) as real <= a
            + half()
    &&& forall|a: real|
        0real <= a <= 4294967295real ==> #[trigger] m.truncate(a) as real <= a
            && a < m.truncate(a) as real + 1real
}

/// In exact arithmetic the recurrence gives the cosine of `freq * (i + 1 / 2)`.
pub proof fn recurrence_gives_cosines(m: Model<real>, freq: real, i: int)
    requires
        is_exact(m),
        0 <= i,
    ensures
        cos_entry(m, freq, i) == m.cos(freq * (i as real + half())),
    decreases i,
{
    assert(m.ratio(1, 2) == half());
    if i == 0 {
    } else if i == 1 {
        assert(freq + freq * half() == freq * (1real + half())) by (nonlinear_arith);
    } else {
        recurrence_gives_cosines(m, freq, i - 1);
        recurrence_gives_cosines(m, freq, i - 2);
        let a = freq * ((i - 1) as real + half());
        assert((i - 1) as real == i as real - 1real);
        assert((i - 2) as real == i as real - 2real);
        assert(a + freq == freq * (i as real + half())) by (nonlinear_arith)
            requires
                a == freq * (i as real - 1real + half()),
        ;
        assert(a - freq == freq * (i as real - 2real + half())) by (nonlinear_arith)
            requires
                a == freq * (i as real - 1real + half()),
        ;
        assert(product_rule(m, a, freq));
        assert(2real * m.cos(freq) * m.cos(a) == 2real * m.cos(a) * m.cos(freq))
            by (nonlinear_arith);
    }
}

/// The sum of `f(i)` for `i` in `0..n`.
pub open spec fn sum(f: spec_fn(int) -> real, n: int) -> real
    decreases n,
{
    if n <= 0 {
        0real
    } else {
        sum(f, n - 1) + f(n - 1)
    }
}

/// Sums of equal numbers are equal.
pub proof fn lemma_sum_eq(f: spec_fn(int) -> real, g: spec_fn(int) -> real, n: int)
    requires
        forall|i: int| 0 <= i < n ==> #[trigger] f(i) == g(i),
    ensures
        sum(f, n) == sum(g, n),
    decreases n,
{
    if n > 0 {
        lemma_sum_eq(f, g, n - 1);
        assert(f(n - 1) == g(n - 1));
    }
}

/// A common factor can be taken out of a sum.
pub proof fn lemma_sum_scale(f: spec_fn(int) -> real, c: real, n: int)
    ensures
        sum(|i: int| f(i) * c, n) == sum(f, n) * c,
    decreases n,
{
    let g = |i: int| f(i) * c;
    if n > 0 {
        lemma_sum_scale(f, c, n - 1);
        assert(sum(g, n) == sum(g, n - 1) + f(n - 1) * c);
        assert(sum(f, n - 1) * c + f(n - 1) * c == (sum(f, n - 1) + f(n - 1)) * c)
            by (nonlinear_arith);
    } else {
        assert(0real * c == 0real) by (nonlinear_arith);
    }
}

/// The sum of sums is the sum of both.
pub proof fn lemma_sum_plus(f: spec_fn(int) -> real, g: spec_fn(int) -> real, n: int)
    ensures
        sum(|i: int| f(i) + g(i), n) == sum(f, n) + sum(g, n),
    decreases n,
{
    if n > 0 {
        lemma_sum_plus(f, g, n - 1);
    }
}

/// The order of two sums does not matter.
pub proof fn lemma_sum_swap(g: spec_fn(int, int) -> real, w: int, h: int)
    ensures
        sum(|x: int| sum(|y: int| g(x, y), h), w) == sum(|y: int| sum(|x: int| g(x, y), w), h),
    decreases w,
{
    let outer = |x: int| sum(|y: int| g(x, y), h);
    let inner = |y: int| sum(|x: int| g(x, y), w);
    if w <= 0 {
        assert forall|y: int| 0 <= y < h implies #[trigger] inner(y) == (|y: int| 0real)(y) by {}
        lemma_sum_eq(inner, |y: int| 0real, h);
        lemma_sum_zero(h);
    } else {
        lemma_sum_swap(g, w - 1, h);
        let before = |y: int| sum(|x: int| g(x, y), w - 1);
        let last = |y: int| g(w - 1, y);
        lemma_sum_plus(before, last, h);
        lemma_sum_eq(inner, |y: int| before(y) + last(y), h);
    }
}

/// A sum of zeros is zero.
pub proof fn lemma_sum_zero(n: int)
    ensures
        sum(|i: int| 0real, n) == 0real,
    decreases n,
{
    if n > 0 {
        lemma_sum_zero(n - 1);
    }
}

/// In exact arithmetic the sum of products is what its name says.
pub proof fn lemma_dot(m: Model<real>, a: Seq<real>, b: Seq<real>, n: int)
    requires
        is_exact(m),
    ensures
        dot(m, a, b, n) == sum(|i: int| a[i] * b[i], n),
    decreases n,
{
    if n > 0 {
        lemma_dot(m, a, b, n - 1);
    }
}

/// In exact arithmetic the separable transform gives the two-dimensional one: each coefficient
/// is the average, over all pixels, of the sample times the horizontal and the vertical cosine.
pub proof fn separable_forward_transform(
    m: Model<real>,
    samples: Seq<real>,
    w: int,
    h: int,
    cx: int,
    cy: int,
)
    requires
        is_exact(m),
        0 < w,
        0 < h,
        w * h <= u32::MAX,
    ensures
        coefficient(m, samples, w, h, cx, cy) == sum(
            |y: int|
                sum(
                    |x: int|
                        samples[y * w + x] * cosine(m, w, cx, x) * cosine(m, h, cy, y),
                    w,
                ),
            h,
        ) / ((w * h) as real),
{
    let g = |x: int, y: int| samples[y * w + x] * cosine(m, w, cx, x) * cosine(m, h, cy, y);
    let sums = column_sums(m, samples, w, h, cy);
    let outer = |x: int| sum(|y: int| g(x, y), h);
    let products = |x: int| sums[x] * cosines(m, w, cx)[x];
    lemma_dot(m, sums, cosines(m, w, cx), w);
    assert forall|x: int| 0 <= x < w implies #[trigger] products(x) == outer(x) by {
        let col = column(samples, w, h, x);
        let f = |y: int| col[y] * cosines(m, h, cy)[y];
        let c = cosine(m, w, cx, x);
        lemma_dot(m, col, cosines(m, h, cy), h);
        lemma_sum_scale(f, c, h);
        let scaled = |y: int| f(y) * c;
        let terms = |y: int| g(x, y);
        assert forall|y: int| 0 <= y < h implies #[trigger] scaled(y) == terms(y) by {
            let s = samples[y * w + x];
            let v = cosine(m, h, cy, y);
            assert(s * v * c == s * c * v) by (nonlinear_arith);
        }
        lemma_sum_eq(scaled, terms, h);
    }
    lemma_sum_eq(products, outer, w);
    lemma_sum_swap(g, w, h);
    let total = sum(|y: int| sum(|x: int| g(x, y), w), h);
    let rows_a = |y: int| sum(|x: int| g(x, y), w);
    let rows_b = |y: int|
        sum(|x: int| samples[y * w + x] * cosine(m, w, cx, x) * cosine(m, h, cy, y), w);
    assert forall|y: int| 0 <= y < h implies #[trigger] rows_a(y) == rows_b(y) by {
        lemma_sum_eq(
            |x: int| g(x, y),
            |x: int| samples[y * w + x] * cosine(m, w, cx, x) * cosine(m, h, cy, y),
            w,
        );
    }
    lemma_sum_eq(rows_a, rows_b, h);
    assert(w * h > 0) by (nonlinear_arith)
        requires
            0 < w,
            0 < h,
    ;
    let n = (w * h) as real;
    assert(m.ratio(1, w * h) == 1real / n);
    assert(total * (1real / n) == total / n) by (nonlinear_arith)
        requires
            n > 0real,
    ;
}

/// Twice the coefficient `j` times its horizontal and its vertical cosine at the column `x` and
/// the row `y`.
pub open spec fn contribution(
    m: Model<real>,
    list: Seq<(usize, usize)>,
    ac: Seq<real>,
    w: int,
    h: int,
    x: int,
    y: int,
    j: int,
) -> real {
    2real * ac[j] * cosine(m, w, list[j].0 as int, x) * cosine(m, h, list[j].1 as int, y)
}

/// The contribution of the coefficient `j`, if its vertical frequency is below `cy`.
spec fn contribution_below(
    m: Model<real>,
    list: Seq<(usize, usize)>,
    ac: Seq<real>,
    w: int,
    h: int,
    x: int,
    y: int,
    cy: int,
    j: int,
) -> real {
    if list[j].1 < cy {
        contribution(m, list, ac, w, h, x, y, j)
    } else {
        0real
    }
}

proof fn lemma_next_frequency(
    m: Model<real>,
    list: Seq<(usize, usize)>,
    ac: Seq<real>,
    w: int,
    h: int,
    x: int,
    y: int,
    cy: int,
    n: int,
)
    requires
        is_exact(m),
    ensures
        sum(|j: int| contribution_below(m, list, ac, w, h, x, y, cy + 1, j), n) == sum(
            |j: int| contribution_below(m, list, ac, w, h, x, y, cy, j),
            n,
        ) + frequency_sum(m, list, ac, w, cy, x, n) * (cosine(m, h, cy, y) * 2real),
    decreases n,
{
    let v = cosine(m, h, cy, y);
    if n > 0 {
        lemma_next_frequency(m, list, ac, w, h, x, y, cy, n - 1);
        let before = frequency_sum(m, list, ac, w, cy, x, n - 1);
        let a = ac[n - 1];
        let u = cosine(m, w, list[n - 1].0 as int, x);
        assert((before + a * u) * (v * 2real) == before * (v * 2real) + 2real * a * u * v)
            by (nonlinear_arith);
    } else {
        assert(0real * (v * 2real) == 0real) by (nonlinear_arith);
    }
}

proof fn lemma_partial_sample(
    m: Model<real>,
    dc: real,
    list: Seq<(usize, usize)>,
    ac: Seq<real>,
    w: int,
    h: int,
    x: int,
    y: int,
    cy: int,
)
    requires
        is_exact(m),
        0 <= cy,
    ensures
        partial_sample(m, dc, list, ac, w, h, x, y, cy) == dc + sum(
            |j: int| contribution_below(m, list, ac, w, h, x, y, cy, j),
            list.len() as int,
        ),
    decreases cy,
{
    if cy > 0 {
        lemma_partial_sample(m, dc, list, ac, w, h, x, y, cy - 1);
        lemma_next_frequency(m, list, ac, w, h, x, y, cy - 1, list.len() as int);
    } else {
        lemma_sum_eq(
            |j: int| contribution_below(m, list, ac, w, h, x, y, 0, j),
            |j: int| 0real,
            list.len() as int,
        );
        lemma_sum_zero(list.len() as int);
    }
}

/// In exact arithmetic the separable inverse transform gives the two-dimensional one: each
/// sample is the average plus, over all other coefficients, twice the coefficient times its
/// horizontal and its vertical cosine.
pub proof fn separable_inverse_transform(
    m: Model<real>,
    dc: real,
    ac: Seq<real>,
    nx: int,
    ny: int,
    w: int,
    h: int,
    x: int,
    y: int,
)
    requires
        is_exact(m),
        1 <= nx <= usize::MAX,
        1 <= ny <= usize::MAX,
    ensures
        ({
            let list = triangle(nx, ny).drop_first();
            sample(m, dc, ac, nx, ny, w, h, x, y) == dc + sum(
                |j: int| contribution(m, list, ac, w, h, x, y, j),
                list.len() as int,
            )
        }),
{
    let list = triangle(nx, ny).drop_first();
    lemma_partial_sample(m, dc, list, ac, w, h, x, y, ny);
    lemma_triangle_bounds(nx, ny);
    lemma_triangle_first(nx, ny);
    let f = |j: int| contribution_below(m, list, ac, w, h, x, y, ny, j);
    assert forall|j: int| 0 <= j < list.len() implies #[trigger] f(j) == contribution(
        m,
        list,
        ac,
        w,
        h,
        x,
        y,
        j,
    ) by {
        assert(list[j] == triangle(nx, ny)[j + 1]);
    }
    lemma_sum_eq(f, |j: int| contribution(m, list, ac, w, h, x, y, j), list.len() as int);
}

} // verus!
