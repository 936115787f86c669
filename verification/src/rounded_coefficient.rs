//! The coefficients of a channel in an arithmetic that rounds, against those in exact arithmetic.
use crate::arithmetic::Model;
use crate::cosine::{cosine, cosines};
use crate::exact::{is_exact, lemma_dot, lemma_sum_eq, lemma_sum_zero, sum};
use crate::fidelity::{lemma_cosine_bound, lemma_real_product, size};
use crate::forward::{coefficient, column, column_sums};
use crate::geometry::MAX_SIDE;
use crate::rounded::{is_bounded, is_near, is_rounded, micro, themselves, Meaning};
use crate::rounded_cosine::{cosines_are_bounded, cosines_are_near};
use crate::rounded_forward::{exact_column, exact_total, lemma_near_coefficient, lemma_sum_near};
use vstd::prelude::*;

verus! {

/// The numbers that the samples of a channel stand for.
pub open spec fn values_of<N>(k: Meaning<N>, samples: Seq<N>) -> Seq<real> {
    Seq::new(samples.len(), |i: int| k.value(samples[i]))
}

/// In exact arithmetic a coefficient is the average of the products of the samples and the
/// cosines.
#[verifier::spinoff_prover]
pub proof fn lemma_exact_coefficient(
    m: Model<real>,
    samples: Seq<real>,
    w: int,
    h: int,
    cx: int,
    cy: int,
)
    requires
        is_exact(m),
        1 <= w <= MAX_SIDE,
        1 <= h <= MAX_SIDE,
    ensures
        coefficient(m, samples, w, h, cx, cy) == exact_total(
            m,
            themselves(m),
            samples,
            w,
            h,
            cx,
            cy,
        ) / ((w * h) as real),
{
    let k = themselves(m);
    let sums = column_sums(m, samples, w, h, cy);
    let cos = cosines(m, w, cx);
    lemma_dot(m, sums, cos, w);
    let f = |x: int| sums[x] * cos[x];
    let g = |x: int| exact_column(m, k, samples, w, h, cy, x) * k.value(cosine(m, w, cx, x));
    assert forall|x: int| 0 <= x < w implies #[trigger] f(x) == g(x) by {
        let col = column(samples, w, h, x);
        lemma_dot(m, col, cosines(m, h, cy), h);
        lemma_sum_eq(
            |i: int| col[i] * cosines(m, h, cy)[i],
            |y: int| k.value(samples[y * w + x]) * k.value(cosine(m, h, cy, y)),
            h,
        );
    }
    lemma_sum_eq(f, g, w);
    assert(1 <= w * h <= 10000) by (nonlinear_arith)
        requires
            1 <= w <= 100,
            1 <= h <= 100,
    ;
    let n = (w * h) as real;
    let total = sum(g, w);
    assert(m.ratio(1, w * h) == 1real / n);
    assert(total * (1real / n) == total / n) by (nonlinear_arith)
        requires
            1real <= n,
    ;
}

/// The sum of a column against the computed cosines is close to that against the exact ones, which
/// exceeds the number of its samples by little.
#[verifier::spinoff_prover]
proof fn lemma_column_cosines<N>(
    m: Model<N>,
    k: Meaning<N>,
    samples: Seq<N>,
    w: int,
    h: int,
    cy: int,
    x: int,
)
    requires
        is_rounded(m, k),
        0 <= x < w <= MAX_SIDE,
        1 <= h <= MAX_SIDE,
        samples.len() == w * h,
        forall|i: int|
            0 <= i < samples.len() ==> is_bounded(k, #[trigger] samples[i], 1real + micro(80)),
        0 <= cy <= 6,
    ensures
        ({
            let a = exact_column(m, k, samples, w, h, cy, x);
            let b = exact_column(
                k.exact,
                themselves(k.exact),
                values_of(k, samples),
                w,
                h,
                cy,
                x,
            );
            &&& size(a - b) <= h as real * (32real / 10000real)
            &&& size(b) <= h as real * (1real + micro(80))
        }),
{
    let values = values_of(k, samples);
    let e = themselves(k.exact);
    let f = |y: int| k.value(samples[y * w + x]) * k.value(cosine(m, h, cy, y));
    let g = |y: int| e.value(values[y * w + x]) * e.value(cosine(k.exact, h, cy, y));
    assert forall|y: int| 0 <= y < h implies size(#[trigger] f(y) - g(y)) <= 32real / 10000real
        && size(g(y)) <= 1real + micro(80) by {
        assert(0 <= y * w + x < w * h) by (nonlinear_arith)
            requires
                0 <= x < w,
                0 <= y < h,
        ;
        assert(is_bounded(k, samples[y * w + x], 1real + micro(80)));
        cosines_are_near(m, k, h, cy, y);
        lemma_cosine_bound(k.exact, h, cy, y);
        let v = k.value(samples[y * w + x]);
        let c = k.value(cosine(m, h, cy, y));
        let d = cosine(k.exact, h, cy, y);
        assert(size(v * c - v * d) <= 32real / 10000real && size(v * d) <= 1real + micro(80))
            by (nonlinear_arith)
            requires
                size(v) <= 1real + micro(80),
                size(c - d) <= 31real / 10000real,
                size(d) <= 1real,
                micro(80) == 80real / 1000000real,
        {
            assert(v * c - v * d == v * (c - d));
            assert(size(v * (c - d)) <= (1real + micro(80)) * (31real / 10000real));
        }
    }
    lemma_sum_near(f, g, h, 32real / 10000real);
    let zero = |y: int| 0real;
    assert forall|y: int| 0 <= y < h implies size(#[trigger] g(y) - zero(y)) <= 1real
        + micro(80) by {
        assert(size(f(y) - g(y)) <= 32real / 10000real);
    }
    lemma_sum_near(g, zero, h, 1real + micro(80));
    lemma_sum_zero(h);
}

/// In rounded arithmetic a coefficient of a channel whose samples exceed one by little is, up to
/// `7 / 1000`, that of the numbers that the samples stand for in exact arithmetic.
#[verifier::spinoff_prover]
pub proof fn rounded_coefficient_is_near<N>(
    m: Model<N>,
    k: Meaning<N>,
    samples: Seq<N>,
    w: int,
    h: int,
    cx: int,
    cy: int,
)
    requires
        is_rounded(m, k),
        1 <= w <= MAX_SIDE,
        1 <= h <= MAX_SIDE,
        samples.len() == w * h,
        forall|i: int|
            0 <= i < samples.len() ==> is_bounded(k, #[trigger] samples[i], 1real + micro(80)),
        0 <= cx <= 6,
        0 <= cy <= 6,
    ensures
        is_near(
            k,
            coefficient(m, samples, w, h, cx, cy),
            coefficient(k.exact, values_of(k, samples), w, h, cx, cy),
            7real / 1000real,
        ),
{
    let values = values_of(k, samples);
    let e = themselves(k.exact);
    lemma_exact_coefficient(k.exact, values, w, h, cx, cy);
    lemma_near_coefficient(m, k, samples, w, h, cx, cy);
    let s = h as real;
    let t = s * (64real / 10000real);
    let f = |x: int| exact_column(m, k, samples, w, h, cy, x) * k.value(cosine(m, w, cx, x));
    let g = |x: int|
        exact_column(k.exact, e, values, w, h, cy, x) * e.value(cosine(k.exact, w, cx, x));
    assert forall|x: int| 0 <= x < w implies size(#[trigger] f(x) - g(x)) <= t by {
        lemma_column_cosines(m, k, samples, w, h, cy, x);
        cosines_are_near(m, k, w, cx, x);
        cosines_are_bounded(m, k, w, cx, x);
        let a = exact_column(m, k, samples, w, h, cy, x);
        let b = exact_column(k.exact, e, values, w, h, cy, x);
        let c = k.value(cosine(m, w, cx, x));
        let d = cosine(k.exact, w, cx, x);
        assert(size(a * c - b * d) <= s * (64real / 10000real)) by (nonlinear_arith)
            requires
                size(a - b) <= s * (32real / 10000real),
                size(b) <= s * (1real + micro(80)),
                size(c) <= 1003real / 1000real,
                size(c - d) <= 31real / 10000real,
                1real <= s,
                micro(80) == 80real / 1000000real,
        {
            assert(a * c - b * d == (a - b) * c + b * (c - d));
            assert(size((a - b) * c) <= s * (32real / 10000real) * (1003real / 1000real));
            assert(size(b * (c - d)) <= s * (1real + micro(80)) * (31real / 10000real));
        }
    }
    lemma_sum_near(f, g, w, t);
    let p = exact_total(m, k, samples, w, h, cx, cy);
    let q = exact_total(k.exact, e, values, w, h, cx, cy);
    lemma_real_product(w, h);
    let n = (w * h) as real;
    assert(1 <= w * h) by (nonlinear_arith)
        requires
            1 <= w,
            1 <= h,
    ;
    assert(size(p / n - q / n) <= 64real / 10000real) by (nonlinear_arith)
        requires
            size(p - q) <= w as real * t,
            t == s * (64real / 10000real),
            n == w as real * s,
            1real <= n,
    {
        assert(p / n - q / n == (p - q) / n);
        assert(w as real * t == n * (64real / 10000real));
    }
}

} // verus!
