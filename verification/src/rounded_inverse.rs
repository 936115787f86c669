//! The samples of a channel in an arithmetic that rounds.
use crate::arithmetic::Model;
use crate::cosine::cosine;
use crate::fidelity::size;
use crate::geometry::triangle;
use crate::inverse::{frequency_sum, partial_sample, sample};
use crate::rounded::{
    is_near, is_rounded, lemma_integer, lemma_times, lemma_unit, micro, unit, Meaning,
};
use crate::rounded_cosine::decoded_cosines_are_near;
use vstd::prelude::*;

verus! {

/// How many of the first `j` coefficients have the vertical frequency `cy`.
pub open spec fn row_count(list: Seq<(usize, usize)>, cy: int, j: int) -> int
    decreases j,
{
    if j <= 0 {
        0
    } else {
        row_count(list, cy, j - 1) + if list[j - 1].1 == cy {
            1
        } else {
            0int
        }
    }
}

/// How many of the first `j` coefficients have a vertical frequency below `cy`.
pub open spec fn below_count(list: Seq<(usize, usize)>, cy: int, j: int) -> int
    decreases j,
{
    if j <= 0 {
        0
    } else {
        below_count(list, cy, j - 1) + if list[j - 1].1 < cy {
            1
        } else {
            0int
        }
    }
}

/// The coefficients below a frequency are those of the rows below it.
proof fn lemma_counts(list: Seq<(usize, usize)>, cy: int, j: int)
    requires
        0 <= j,
    ensures
        below_count(list, cy + 1, j) == below_count(list, cy, j) + row_count(list, cy, j),
        0 <= below_count(list, cy, j) <= j,
        0 <= below_count(list, cy + 1, j) <= j,
        0 <= row_count(list, cy, j) <= j,
        below_count(list, 0, j) == 0,
    decreases j,
{
    if j > 0 {
        lemma_counts(list, cy, j - 1);
    }
}

/// Whether `ac` are, up to 5 millionths, the numbers `exact`, of magnitude `s` at most, of no more
/// than 27 coefficients with the frequencies `list`, of which none is above six.
pub open spec fn are_near<N>(
    k: Meaning<N>,
    list: Seq<(usize, usize)>,
    ac: Seq<N>,
    exact: Seq<real>,
    s: real,
) -> bool {
    &&& 0real <= s <= 5real / 4real
    &&& list.len() <= 27
    &&& ac.len() == list.len()
    &&& exact.len() == list.len()
    &&& forall|j: int| 0 <= j < list.len() ==> (#[trigger] list[j]).0 <= 6 && list[j].1 <= 6
    &&& forall|j: int| 0 <= j < list.len() ==> is_near(k, #[trigger] ac[j], exact[j], micro(5))
    &&& forall|j: int| 0 <= j < list.len() ==> size(#[trigger] exact[j]) <= s
}

/// What a coefficient adds to the error of a row, where no coefficient exceeds `s`.
pub open spec fn row_error(s: real) -> real {
    s * (32real / 100000real) + micro(9)
}

/// What a coefficient adds to the error of a sample, where no coefficient exceeds `s`.
pub open spec fn sample_error(s: real) -> real {
    s * (129real / 100000real) + micro(19)
}

/// A coefficient times a cosine.
#[verifier::spinoff_prover]
proof fn lemma_near_term<N>(
    m: Model<N>,
    k: Meaning<N>,
    a: N,
    x: real,
    s: real,
    c: N,
    d: real,
)
    requires
        is_rounded(m, k),
        is_near(k, a, x, micro(5)),
        size(x) <= s <= 5real / 4real,
        is_near(k, c, d, 32real / 100000real),
        size(d) <= 1real,
    ensures
        is_near(k, m.times(a, c), x * d, s * (32real / 100000real) + micro(6)),
        size(x * d) <= s,
{
    lemma_unit();
    let p = k.value(a);
    let q = k.value(c);
    lemma_times(m, k, a, c, 13real / 10real, 11real / 10real);
    assert(size(p * q - x * d) <= s * (32real / 100000real) + 11real / 10real * micro(5)
        && size(x * d) <= s) by (nonlinear_arith)
        requires
            size(p - x) <= micro(5),
            size(x) <= s,
            size(q - d) <= 32real / 100000real,
            size(q) <= 11real / 10real,
            size(d) <= 1real,
    {
        assert(p * q - x * d == (p - x) * q + x * (q - d));
        assert(size((p - x) * q) <= micro(5) * (11real / 10real));
        assert(size(x * (q - d)) <= s * (32real / 100000real));
    }
}

/// The computed sum of a row is close to that of the exact coefficients and cosines.
#[verifier::spinoff_prover]
proof fn lemma_near_row<N>(
    m: Model<N>,
    k: Meaning<N>,
    list: Seq<(usize, usize)>,
    ac: Seq<N>,
    exact: Seq<real>,
    s: real,
    w: int,
    cy: int,
    x: int,
    j: int,
)
    requires
        is_rounded(m, k),
        are_near(k, list, ac, exact, s),
        0 <= x < w <= 32,
        0 <= j <= list.len(),
    ensures
        is_near(
            k,
            frequency_sum(m, list, ac, w, cy, x, j),
            frequency_sum(k.exact, list, exact, w, cy, x, j),
            row_count(list, cy, j) as real * row_error(s),
        ),
        size(frequency_sum(k.exact, list, exact, w, cy, x, j)) <= row_count(list, cy, j) as real
            * s,
    decreases j,
{
    lemma_unit();
    lemma_counts(list, cy, j);
    let e = row_error(s);
    let n = row_count(list, cy, j) as real;
    if j > 0 {
        lemma_near_row(m, k, list, ac, exact, s, w, cy, x, j - 1);
        let r = row_count(list, cy, j - 1) as real;
        lemma_counts(list, cy, j - 1);
        if list[j - 1].1 == cy {
            let cx = list[j - 1].0 as int;
            assert(is_near(k, ac[j - 1], exact[j - 1], micro(5)));
            assert(size(exact[j - 1]) <= s);
            decoded_cosines_are_near(m, k, w, cx, x);
            let c = cosine(m, w, cx, x);
            let d = cosine(k.exact, w, cx, x);
            lemma_near_term(m, k, ac[j - 1], exact[j - 1], s, c, d);
            let before = frequency_sum(m, list, ac, w, cy, x, j - 1);
            let exact_before = frequency_sum(k.exact, list, exact, w, cy, x, j - 1);
            let term = m.times(ac[j - 1], c);
            let sum = k.value(before) + k.value(term);
            assert(n == r + 1real);
            assert(n * e == r * e + e && n * s == r * s + s && r * e <= 27real * e && r * s
                <= 27real * s) by (nonlinear_arith)
                requires
                    n == r + 1real,
                    0real <= r <= 27real,
                    0real <= e,
                    0real <= s,
            ;
            assert(size(sum) <= 40real);
            assert(k.rounds(m.plus(before, term), sum));
            assert(unit() * size(sum) <= 40real * unit()) by (nonlinear_arith)
                requires
                    size(sum) <= 40real,
                    unit() == 1real / 16777216real,
            ;
        }
    } else {
        lemma_integer(m, k, 0);
        assert(0real * e == 0real && 0real * s == 0real) by (nonlinear_arith);
    }
}

/// The error of a product of a sum and a factor of two at most.
#[verifier::spinoff_prover]
proof fn lemma_vertical_error(f: real, x: real, g: real, h: real, ns: real, mu: real)
    requires
        size(f - x) <= ns * (32real / 100000real) + 9real * mu,
        size(x) <= ns <= 34real,
        0real <= mu <= 27real / 1000000real,
        size(g - h) <= 641real / 1000000real,
        size(h) <= 2real,
    ensures
        size(f * g - x * h) <= ns * (129real / 100000real) + 19real * mu,
        size(x * h) <= 2real * ns,
        size(f * g) <= 75real,
{
    let ne = ns * (32real / 100000real) + 9real * mu;
    let p = (f - x) * g;
    let q = x * (g - h);
    assert(size(p) <= ne * (2001real / 1000real)) by (nonlinear_arith)
        requires
            p == (f - x) * g,
            size(f - x) <= ne,
            size(g) <= 2001real / 1000real,
    ;
    assert(size(q) <= ns * (641real / 1000000real)) by (nonlinear_arith)
        requires
            q == x * (g - h),
            size(x) <= ns,
            size(g - h) <= 641real / 1000000real,
    ;
    assert(f * g - x * h == p + q) by (nonlinear_arith)
        requires
            p == (f - x) * g,
            q == x * (g - h),
    ;
    assert(size(x * h) <= 2real * ns) by (nonlinear_arith)
        requires
            size(x) <= ns,
            size(h) <= 2real,
    ;
}

/// A row times twice its vertical cosine.
#[verifier::spinoff_prover]
proof fn lemma_near_vertical<N>(
    m: Model<N>,
    k: Meaning<N>,
    a: N,
    x: real,
    n: real,
    s: real,
    c: N,
    d: real,
)
    requires
        is_rounded(m, k),
        0real <= n <= 27real,
        0real <= s <= 5real / 4real,
        is_near(k, a, x, n * row_error(s)),
        size(x) <= n * s,
        is_near(k, c, d, 32real / 100000real),
        size(d) <= 1real,
    ensures
        is_near(
            k,
            m.times(a, m.times(c, m.from_int(2))),
            x * (d * 2real),
            n * sample_error(s) + micro(5),
        ),
        size(x * (d * 2real)) <= 2real * (n * s),
{
    lemma_unit();
    lemma_integer(m, k, 2);
    let two = m.from_int(2);
    let v = m.times(c, two);
    lemma_times(m, k, c, two, 11real / 10real, 2real);
    let g = k.value(v);
    let h = d * 2real;
    assert(size(g - h) <= 64real / 100000real + micro(1));
    let ns = n * s;
    let mu = n * micro(1);
    let f = k.value(a);
    assert(0real <= ns <= 34real && 0real <= mu <= 27real / 1000000real && n * row_error(s) == ns
        * (32real / 100000real) + 9real * mu && n * sample_error(s) == ns * (129real / 100000real)
        + 19real * mu) by (nonlinear_arith)
        requires
            0real <= n <= 27real,
            0real <= s <= 5real / 4real,
            ns == n * s,
            mu == n * micro(1),
            micro(1) == 1real / 1000000real,
            row_error(s) == s * (32real / 100000real) + 9real * micro(1),
            sample_error(s) == s * (129real / 100000real) + 19real * micro(1),
    ;
    lemma_vertical_error(f, x, g, h, ns, mu);
    assert(k.rounds(m.times(a, v), f * g));
    assert(unit() * size(f * g) <= 75real * unit()) by (nonlinear_arith)
        requires
            size(f * g) <= 75real,
            unit() == 1real / 16777216real,
    ;
}

/// The computed sample with the frequencies below `cy` is close to the exact one.
#[verifier::spinoff_prover]
proof fn lemma_near_partial<N>(
    m: Model<N>,
    k: Meaning<N>,
    dc: N,
    exact_dc: real,
    list: Seq<(usize, usize)>,
    ac: Seq<N>,
    exact: Seq<real>,
    s: real,
    w: int,
    h: int,
    x: int,
    y: int,
    cy: int,
)
    requires
        is_rounded(m, k),
        are_near(k, list, ac, exact, s),
        is_near(k, dc, exact_dc, micro(10)),
        size(exact_dc) <= 1real,
        0 <= x < w <= 32,
        0 <= y < h <= 32,
        0 <= cy <= 7,
    ensures
        ({
            let n = below_count(list, cy, list.len() as int) as real;
            let value = partial_sample(k.exact, exact_dc, list, exact, w, h, x, y, cy);
            &&& is_near(
                k,
                partial_sample(m, dc, list, ac, w, h, x, y, cy),
                value,
                n * sample_error(s) + cy as real * micro(10) + micro(10),
            )
            &&& size(value) <= 1real + 2real * (n * s)
        }),
    decreases cy,
{
    lemma_unit();
    let len = list.len() as int;
    let n = below_count(list, cy, len) as real;
    let e = sample_error(s);
    if cy > 0 {
        lemma_near_partial(m, k, dc, exact_dc, list, ac, exact, s, w, h, x, y, cy - 1);
        lemma_counts(list, cy - 1, len);
        lemma_near_row(m, k, list, ac, exact, s, w, cy - 1, x, len);
        decoded_cosines_are_near(m, k, h, cy - 1, y);
        let r = row_count(list, cy - 1, len) as real;
        let b = below_count(list, cy - 1, len) as real;
        let a = frequency_sum(m, list, ac, w, cy - 1, x, len);
        let value = frequency_sum(k.exact, list, exact, w, cy - 1, x, len);
        let c = cosine(m, h, cy - 1, y);
        let d = cosine(k.exact, h, cy - 1, y);
        lemma_near_vertical(m, k, a, value, r, s, c, d);
        let before = partial_sample(m, dc, list, ac, w, h, x, y, cy - 1);
        let term = m.times(a, m.times(c, m.from_int(2)));
        let exact_before = partial_sample(k.exact, exact_dc, list, exact, w, h, x, y, cy - 1);
        assert(n == b + r);
        assert(n * e == b * e + r * e && n * s == b * s + r * s && 0real <= b * s && 0real <= r
            * s && n * s <= 34real && 0real <= b * e && 0real <= r * e && n * e <= 1real)
            by (nonlinear_arith)
            requires
                n == b + r,
                0real <= b,
                0real <= r,
                n <= 27real,
                0real <= s <= 5real / 4real,
                0real <= e <= 2real / 1000real,
        ;
        assert((cy - 1) as real == cy as real - 1real);
        assert((cy as real - 1real) * micro(10) == cy as real * micro(10) - micro(10))
            by (nonlinear_arith);
        assert(0real <= cy as real * micro(10) <= 70real / 1000000real) by (nonlinear_arith)
            requires
                0real <= cy as real <= 7real,
                micro(10) == 10real / 1000000real,
        ;
        let sum = k.value(before) + k.value(term);
        assert(size(sum) <= 75real);
        assert(k.rounds(m.plus(before, term), sum));
        assert(unit() * size(sum) <= 75real * unit()) by (nonlinear_arith)
            requires
                size(sum) <= 75real,
                unit() == 1real / 16777216real,
        ;
    } else {
        lemma_counts(list, 0, len);
        assert(0real * e == 0real && 0real * s == 0real && 0real * micro(10) == 0real)
            by (nonlinear_arith);
    }
}

/// In rounded arithmetic a sample of a channel of no more than 27 coefficients, each of magnitude
/// `s` at most and known up to 5 millionths, is the exact one up to `129 s / 100000` and 19
/// millionths for each coefficient, and 80 millionths.
#[verifier::spinoff_prover]
pub proof fn rounded_sample_is_near<N>(
    m: Model<N>,
    k: Meaning<N>,
    dc: N,
    exact_dc: real,
    ac: Seq<N>,
    exact: Seq<real>,
    s: real,
    nx: int,
    ny: int,
    w: int,
    h: int,
    x: int,
    y: int,
)
    requires
        is_rounded(m, k),
        1 <= nx <= 7,
        1 <= ny <= 7,
        are_near(k, triangle(nx, ny).drop_first(), ac, exact, s),
        is_near(k, dc, exact_dc, micro(10)),
        size(exact_dc) <= 1real,
        0 <= x < w <= 32,
        0 <= y < h <= 32,
    ensures
        is_near(
            k,
            sample(m, dc, ac, nx, ny, w, h, x, y),
            sample(k.exact, exact_dc, exact, nx, ny, w, h, x, y),
            ac.len() as real * sample_error(s) + micro(80),
        ),
        size(sample(k.exact, exact_dc, exact, nx, ny, w, h, x, y)) <= 1real + 2real * (
        ac.len() as real * s),
{
    let list = triangle(nx, ny).drop_first();
    lemma_near_partial(m, k, dc, exact_dc, list, ac, exact, s, w, h, x, y, ny);
    lemma_counts(list, ny, list.len() as int);
    let n = below_count(list, ny, list.len() as int) as real;
    let l = ac.len() as real;
    let e = sample_error(s);
    assert(n * e <= l * e && n * s <= l * s) by (nonlinear_arith)
        requires
            0real <= n <= l,
            0real <= e,
            0real <= s,
    ;
    assert(ny as real * micro(10) <= 70real / 1000000real) by (nonlinear_arith)
        requires
            0real <= ny as real <= 7real,
            micro(10) == 10real / 1000000real,
    ;
}

} // verus!
