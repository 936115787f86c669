//! The tables of cosines of an arithmetic that rounds.
use crate::arithmetic::Model;
use crate::cosine::{cos_entry, cosine, frequency};
use crate::exact::{half, product_rule, recurrence_gives_cosines};
use crate::fidelity::size;
use crate::rounded::{
    is_bounded, is_near, is_rounded, lemma_integer, lemma_kept_integer, lemma_times, lemma_unit,
    micro, unit, Meaning,
};
use vstd::prelude::*;

verus! {

/// What the errors of two neighbouring entries of a table of cosines, whose angles are one step
/// of cosine `c` apart, make up together.
pub open spec fn energy(c: real, e: real, before: real) -> real {
    e * e - 2real * c * e * before + before * before
}

/// A step of the recurrence adds no more to the errors than what is lost in it.
#[verifier::spinoff_prover]
proof fn lemma_energy(c: real, e: real, before: real, lost: real, g: real, d: real)
    requires
        -1real <= c <= 1real,
        0real <= g,
        energy(c, e, before) <= g * g,
        size(lost) <= d,
    ensures
        ({
            let next = 2real * c * e - before + lost;
            energy(c, next, e) <= (g + d) * (g + d) && size(next) <= size(e) + g + d
        }),
{
    let next = 2real * c * e - before + lost;
    let r = c * e - before;
    assert(next == c * e + r + lost) by (nonlinear_arith)
        requires
            next == 2real * c * e - before + lost,
            r == c * e - before,
    ;
    assert((1real - c * c) * (e * e) >= 0real) by (nonlinear_arith)
        requires
            -1real <= c <= 1real,
    ;
    assert(energy(c, e, before) == r * r + (1real - c * c) * (e * e)) by (nonlinear_arith)
        requires
            r == c * e - before,
    ;
    assert(-g <= r <= g) by (nonlinear_arith)
        requires
            r * r <= g * g,
            0real <= g,
    ;
    assert(energy(c, next, e) == (r + lost) * (r + lost) + (1real - c * c) * (e * e))
        by (nonlinear_arith)
        requires
            next == c * e + r + lost,
    ;
    assert((r + lost) * (r + lost) <= r * r + 2real * g * d + d * d) by (nonlinear_arith)
        requires
            -g <= r <= g,
            size(lost) <= d,
    {
        assert((r + lost) * (r + lost) == r * r + 2real * (r * lost) + lost * lost);
        assert(r * lost <= g * d);
        assert(lost * lost <= d * d);
        assert(2real * g * d == 2real * (g * d));
    }
    assert((g + d) * (g + d) == g * g + 2real * g * d + d * d) by (nonlinear_arith);
    assert(size(c * e) <= size(e)) by (nonlinear_arith)
        requires
            -1real <= c <= 1real,
    ;
}

/// What is lost in a step of the recurrence.
#[verifier::spinoff_prover]
proof fn lemma_step<N>(m: Model<N>, k: Meaning<N>, freq: N, e: N, before: N)
    requires
        is_rounded(m, k),
        is_bounded(k, freq, 20real),
        is_bounded(k, e, 101real / 100real),
        is_bounded(k, before, 101real / 100real),
    ensures
        ({
            let twice_cos = m.times(m.from_int(2), m.cos(freq));
            let next = m.minus(m.times(twice_cos, e), before);
            &&& k.finite(next)
            &&& size(
                k.value(next) - (2real * k.cos(k.value(freq)) * k.value(e) - k.value(before)),
            ) <= 10real * unit()
        }),
{
    let c = k.cos(k.value(freq));
    let two = m.from_int(2);
    let computed = m.cos(freq);
    let twice_cos = m.times(two, computed);
    let product = m.times(twice_cos, e);
    let x = k.value(e);
    let t = k.value(twice_cos);
    assert(size(k.value(computed) - c) <= unit());
    lemma_integer(m, k, 2);
    lemma_times(m, k, two, computed, 2real, 101real / 100real);
    assert(size(t - 2real * c) <= 41real / 10real * unit());
    lemma_times(m, k, twice_cos, e, 202real / 100real, 101real / 100real);
    assert(size((t - 2real * c) * x) <= 41real / 10real * unit() * (101real / 100real))
        by (nonlinear_arith)
        requires
            size(t - 2real * c) <= 41real / 10real * unit(),
            size(x) <= 101real / 100real,
    ;
    assert(t * x == (t - 2real * c) * x + 2real * c * x) by (nonlinear_arith);
    let exact = k.value(product) - k.value(before);
    let next = m.minus(product, before);
    assert(size(exact) <= 31real / 10real);
    assert(k.rounds(next, exact));
    assert(unit() * size(exact) <= unit() * (31real / 10real)) by (nonlinear_arith)
        requires
            size(exact) <= 31real / 10real,
            unit() == 1real / 16777216real,
    ;
}

/// The error of the entry `i` of a table of cosines.
pub open spec fn entry_error<N>(m: Model<N>, k: Meaning<N>, freq: N, i: int) -> real {
    k.value(cos_entry(m, freq, i)) - k.cos(k.value(freq) * (i as real + half()))
}

/// The errors of the first two entries of a table of cosines.
#[verifier::spinoff_prover]
proof fn lemma_first_entries<N>(m: Model<N>, k: Meaning<N>, freq: N)
    requires
        is_rounded(m, k),
        is_bounded(k, freq, 20real),
    ensures
        k.finite(cos_entry(m, freq, 0)),
        k.finite(cos_entry(m, freq, 1)),
        size(entry_error(m, k, freq, 0)) <= unit() * (2real + 2real * size(k.value(freq))),
        size(entry_error(m, k, freq, 1)) <= unit() * (2real + 3real * size(k.value(freq))),
{
    let f = k.value(freq);
    let z = size(f);
    let one_half = m.ratio(1, 2);
    lemma_unit();
    assert(k.rounds(one_half, half())) by {
        lemma_integer(m, k, 1);
        lemma_integer(m, k, 2);
    }
    let o = k.value(one_half);
    let h = m.times(freq, one_half);
    lemma_times(m, k, freq, one_half, z, 51real / 100real);
    assert(size(f * o - f * half()) <= z * (unit() * half() + unit() * unit())) by (nonlinear_arith)
        requires
            size(o - half()) <= unit() * half() + unit() * unit(),
            z == size(f),
    {
        assert(f * o - f * half() == f * (o - half()));
    }
    assert(z * (unit() * half() + unit() * unit()) <= unit() * (51real / 100real * z))
        by (nonlinear_arith)
        requires
            unit() == 1real / 16777216real,
            half() == 1real / 2real,
            0real <= z,
    ;
    assert(unit() * (z * (51real / 100real)) == unit() * (51real / 100real * z))
        by (nonlinear_arith);
    assert(size(k.value(h) - f * half()) <= unit() * (102real / 100real * z) + unit() * unit());
    assert(k.slope_rule(k.value(h), f * half()));
    let next = m.plus(freq, h);
    let exact = f + k.value(h);
    assert(size(f * half()) == half() * z) by (nonlinear_arith)
        requires
            z == size(f),
            half() == 1real / 2real,
    ;
    assert(unit() * (102real / 100real * z) <= z / 100real) by (nonlinear_arith)
        requires
            unit() == 1real / 16777216real,
            0real <= z,
    ;
    assert(size(exact) <= 151real / 100real * z + unit());
    assert(k.rounds(next, exact));
    assert(unit() * size(exact) <= unit() * (151real / 100real * z + unit())) by (nonlinear_arith)
        requires
            size(exact) <= 151real / 100real * z + unit(),
            unit() == 1real / 16777216real,
    ;
    assert(f + f * half() == f * (1real + half())) by (nonlinear_arith);
    assert(f * (0real + half()) == f * half());
    assert(k.slope_rule(k.value(next), f * (1real + half())));
    assert(unit() * (2real + 2real * z) == 2real * unit() + 2real * (unit() * z))
        by (nonlinear_arith);
    assert(unit() * (2real + 3real * z) == 2real * unit() + 3real * (unit() * z))
        by (nonlinear_arith);
    assert(unit() * (102real / 100real * z) == 102real / 100real * (unit() * z))
        by (nonlinear_arith);
    assert(unit() * (151real / 100real * z + unit()) == 151real / 100real * (unit() * z) + unit()
        * unit()) by (nonlinear_arith);
}

/// A bound of the error of the entry `i` of a table of cosines whose angles are `z` apart.
pub open spec fn error_bound(z: real, i: int) -> real {
    unit() * (2real + 2real * z + i as real * (4real + 5real * z) + 5real * i as real * (i as real
        - 1real))
}

/// A bound of what the step to the entry `i` adds to the error.
pub open spec fn growth_bound(z: real, i: int) -> real {
    unit() * (4real + 5real * z + 10real * (i as real - 1real))
}

/// The errors of all entries are small.
#[verifier::spinoff_prover]
pub proof fn lemma_error_bound(z: real, i: int)
    requires
        0real <= z <= 20real,
        0 <= i <= 99,
        i as real * z <= 20real,
    ensures
        0real <= error_bound(z, i) <= 3real / 1000real,
        i >= 1 ==> 0real <= growth_bound(z, i),
{
    let n = i as real;
    assert(0real <= n * (n - 1real) <= 9702real) by (nonlinear_arith)
        requires
            0real <= n <= 99real,
            n == 0real || n >= 1real,
    ;
    assert(n * (4real + 5real * z) == 4real * n + 5real * (n * z)) by (nonlinear_arith);
    assert(5real * n * (n - 1real) == 5real * (n * (n - 1real))) by (nonlinear_arith);
    assert(n * z >= 0real) by (nonlinear_arith)
        requires
            0real <= n,
            0real <= z,
    ;
    lemma_unit();
}

/// In rounded arithmetic the recurrence stays close to the cosines.
#[verifier::spinoff_prover]
pub proof fn lemma_entry<N>(m: Model<N>, k: Meaning<N>, freq: N, n: int, i: int)
    requires
        is_rounded(m, k),
        is_bounded(k, freq, 20real),
        0 <= i <= n <= 99,
        n as real * size(k.value(freq)) <= 20real,
    ensures
        k.finite(cos_entry(m, freq, i)),
        size(entry_error(m, k, freq, i)) <= error_bound(size(k.value(freq)), i),
        i >= 1 ==> energy(
            k.cos(k.value(freq)),
            entry_error(m, k, freq, i),
            entry_error(m, k, freq, i - 1),
        ) <= growth_bound(size(k.value(freq)), i) * growth_bound(size(k.value(freq)), i),
    decreases i,
{
    let f = k.value(freq);
    let z = size(f);
    let c = k.cos(f);
    lemma_unit();
    lemma_first_entries(m, k, freq);
    let first = entry_error(m, k, freq, 0);
    let second = entry_error(m, k, freq, 1);
    if i == 0 {
        assert(error_bound(z, 0) == unit() * (2real + 2real * z)) by (nonlinear_arith);
    } else if i == 1 {
        assert(error_bound(z, 1) == unit() * (6real + 7real * z)) by (nonlinear_arith);
        assert(unit() * (2real + 3real * z) <= unit() * (6real + 7real * z)) by (nonlinear_arith)
            requires
                0real <= z,
                unit() == 1real / 16777216real,
        ;
        let g = growth_bound(z, 1);
        assert(g == unit() * (2real + 2real * z) + unit() * (2real + 3real * z))
            by (nonlinear_arith)
            requires
                g == unit() * (4real + 5real * z + 10real * (1real - 1real)),
        ;
        assert(energy(c, second, first) <= g * g) by (nonlinear_arith)
            requires
                -1real <= c <= 1real,
                size(first) + size(second) <= g,
        {
            let s = size(first);
            let t = size(second);
            let x = second * first;
            assert(size(x) == s * t);
            assert(-c * x <= size(x));
            assert(2real * c * second * first == 2real * (c * x));
            assert(second * second == t * t && first * first == s * s);
            assert((s + t) * (s + t) == s * s + 2real * (s * t) + t * t);
            assert((s + t) * (s + t) <= g * g);
        }
    } else {
        let r = i as real;
        assert((i - 1) as real == r - 1real && (i - 2) as real == r - 2real);
        lemma_entry(m, k, freq, n, i - 1);
        lemma_entry(m, k, freq, n, i - 2);
        assert((r - 1real) * z <= 20real && (r - 2real) * z <= 20real) by (nonlinear_arith)
            requires
                2real <= r <= n as real,
                n as real * z <= 20real,
                0real <= z,
        ;
        lemma_error_bound(z, i - 1);
        lemma_error_bound(z, i - 2);
        let e = cos_entry(m, freq, i - 1);
        let before = cos_entry(m, freq, i - 2);
        let y = f * (r - 1real + half());
        let true_e = k.cos(f * ((i - 1) as real + half()));
        let true_before = k.cos(f * ((i - 2) as real + half()));
        let true_next = k.cos(f * (r + half()));
        assert(y + f == f * (r + half()) && y - f == f * (r - 2real + half())) by (nonlinear_arith)
            requires
                y == f * (r - 1real + half()),
        ;
        assert(product_rule(k.exact, y, f));
        assert(2real * true_e * c == 2real * c * true_e) by (nonlinear_arith);
        lemma_step(m, k, freq, e, before);
        let err = entry_error(m, k, freq, i - 1);
        let prior = entry_error(m, k, freq, i - 2);
        let next = cos_entry(m, freq, i);
        let lost = k.value(next) - (2real * c * k.value(e) - k.value(before));
        assert(2real * c * k.value(e) == 2real * c * true_e + 2real * c * err) by (nonlinear_arith)
            requires
                k.value(e) == true_e + err,
        ;
        assert(entry_error(m, k, freq, i) == 2real * c * err - prior + lost);
        let g = growth_bound(z, i - 1);
        let d = 10real * unit();
        lemma_energy(c, err, prior, lost, g, d);
        assert(g + d == growth_bound(z, i)) by (nonlinear_arith)
            requires
                g == unit() * (4real + 5real * z + 10real * (r - 1real - 1real)),
                growth_bound(z, i) == unit() * (4real + 5real * z + 10real * (r - 1real)),
                d == 10real * unit(),
        ;
        assert(error_bound(z, i - 1) + growth_bound(z, i) == error_bound(z, i)) by (nonlinear_arith)
            requires
                error_bound(z, i - 1) == unit() * (2real + 2real * z + (r - 1real) * (4real + 5real
                    * z) + 5real * (r - 1real) * (r - 1real - 1real)),
                growth_bound(z, i) == unit() * (4real + 5real * z + 10real * (r - 1real)),
                error_bound(z, i) == unit() * (2real + 2real * z + r * (4real + 5real * z) + 5real
                    * r * (r - 1real)),
        ;
    }
}

/// In rounded arithmetic the entries of a table of cosines that starts at zero are one.
#[verifier::spinoff_prover]
proof fn lemma_constant_entry<N>(m: Model<N>, k: Meaning<N>, freq: N, i: int)
    requires
        is_rounded(m, k),
        k.finite(freq),
        k.value(freq) == 0real,
        0 <= i,
    ensures
        k.finite(cos_entry(m, freq, i)),
        k.value(cos_entry(m, freq, i)) == 1real,
    decreases i,
{
    let one_half = m.ratio(1, 2);
    lemma_integer(m, k, 1);
    lemma_integer(m, k, 2);
    assert(k.rounds(one_half, half()));
    let h = m.times(freq, one_half);
    let o = k.value(one_half);
    assert(0real * o == 0real) by (nonlinear_arith);
    lemma_kept_integer(m, k, 0);
    lemma_kept_integer(m, k, 1);
    lemma_kept_integer(m, k, 2);
    assert(k.rounds(h, 0real));
    let next = m.plus(freq, h);
    assert(k.rounds(next, 0real));
    if i >= 2 {
        lemma_constant_entry(m, k, freq, i - 1);
        lemma_constant_entry(m, k, freq, i - 2);
        let twice_cos = m.times(m.from_int(2), m.cos(freq));
        assert(k.rounds(twice_cos, 2real * 1real));
        let product = m.times(twice_cos, cos_entry(m, freq, i - 1));
        assert(k.rounds(product, 2real * 1real));
        let entry = m.minus(product, cos_entry(m, freq, i - 2));
        assert(k.rounds(entry, 2real - 1real));
    }
}

/// The angles that images are transformed with are moderate, and close to the exact ones.
#[verifier::spinoff_prover]
pub proof fn lemma_frequency<N>(m: Model<N>, k: Meaning<N>, len: int, c: int)
    requires
        is_rounded(m, k),
        1 <= len <= 100,
        0 <= c <= 6,
    ensures
        ({
            let f = k.value(frequency(m, c, len));
            &&& is_bounded(k, frequency(m, c, len), 20real)
            &&& size(f) * len as real <= 20real
            &&& size(f - frequency(k.exact, c, len)) * len as real <= micro(10)
            &&& c == 0 ==> f == 0real
        }),
{
    lemma_unit();
    lemma_integer(m, k, len);
    lemma_integer(m, k, c);
    let n = len as real;
    let pi = k.value(m.pi);
    let exact_pi = k.exact.pi;
    assert(k.rounds(m.pi, exact_pi));
    assert(unit() * size(exact_pi) <= 4real * unit()) by (nonlinear_arith)
        requires
            size(exact_pi) <= 4real,
            unit() == 1real / 16777216real,
    ;
    assert(size(pi - exact_pi) <= 5real * unit());
    let step = m.over(m.pi, m.from_int(len));
    let q = pi / n;
    assert(0real <= q <= 4real && q * n == pi && exact_pi / n * n == exact_pi)
        by (nonlinear_arith)
        requires
            3real <= pi <= 32real / 10real,
            q == pi / n,
            1real <= n,
    ;
    assert(k.rounds(step, q));
    let s = k.value(step);
    let t = c as real;
    let freq = frequency(m, c, len);
    let f = k.value(freq);
    assert(unit() * size(q) <= 4real * unit()) by (nonlinear_arith)
        requires
            size(q) <= 4real,
            unit() == 1real / 16777216real,
    ;
    lemma_times(m, k, step, m.from_int(c), 5real, 6real);
    assert(k.rounds(freq, s * t));
    assert(size(f) * n <= 20real && size(f) <= 20real) by (nonlinear_arith)
        requires
            size(s - q) <= 4real * unit() + unit() * unit(),
            size(f - s * t) <= unit() * (5real * 6real) + unit() * unit(),
            0real <= q,
            q * n == pi,
            pi <= 32real / 10real,
            0real <= t <= 6real,
            1real <= n <= 100real,
            unit() == 1real / 16777216real,
            unit() * unit() == 1real / 281474976710656real,
    {
        assert(size(s * t) <= (q + 5real * unit()) * 6real);
        assert(size(f) <= 6real * q + 70real * unit());
        assert(size(f) * n <= 6real * (q * n) + 70real * unit() * n);
    }
    let exact = exact_pi / n * t;
    assert(frequency(k.exact, c, len) == exact);
    let lost = unit() * unit();
    assert(size(s * n - pi) <= 4real * unit() + lost * n) by (nonlinear_arith)
        requires
            size(s - q) <= unit() * size(q) + lost,
            q * n == pi,
            0real <= q,
            pi <= 32real / 10real,
            1real <= n,
            unit() == 1real / 16777216real,
    {
        assert(s * n - pi == (s - q) * n);
        assert(size((s - q) * n) <= (unit() * q + lost) * n);
        assert((unit() * q + lost) * n == unit() * (q * n) + lost * n);
    }
    assert(lost * n <= unit()) by (nonlinear_arith)
        requires
            lost == 1real / 281474976710656real,
            n <= 100real,
            unit() == 1real / 16777216real,
    ;
    assert(size(s * t * n) <= 20real) by (nonlinear_arith)
        requires
            size(s * n - pi) <= 5real * unit(),
            pi <= 32real / 10real,
            3real <= pi,
            0real <= t <= 6real,
            unit() == 1real / 16777216real,
    {
        assert(s * t * n == (s * n) * t);
    }
    assert(size(f * n - s * t * n) <= 21real * unit()) by (nonlinear_arith)
        requires
            size(f - s * t) <= unit() * size(s * t) + lost,
            size(s * t * n) <= 20real,
            lost * n <= unit(),
            1real <= n,
            unit() == 1real / 16777216real,
    {
        assert(f * n - s * t * n == (f - s * t) * n);
        assert(size((f - s * t) * n) <= (unit() * size(s * t) + lost) * n);
        assert(size(s * t) * n == size(s * t * n));
        assert((unit() * size(s * t) + lost) * n == unit() * (size(s * t) * n) + lost * n);
    }
    assert(size(s * t * n - exact_pi * t) <= 60real * unit()) by (nonlinear_arith)
        requires
            size(s * n - pi) <= 5real * unit(),
            size(pi - exact_pi) <= 5real * unit(),
            0real <= t <= 6real,
            unit() == 1real / 16777216real,
    {
        assert(s * t * n - exact_pi * t == (s * n - exact_pi) * t);
    }
    assert(size(f - exact) * n == size(f * n - exact_pi * t)) by (nonlinear_arith)
        requires
            exact == exact_pi / n * t,
            exact_pi / n * n == exact_pi,
            1real <= n,
    {
        assert((f - exact) * n == f * n - exact_pi * t);
    }
    if c == 0 {
        assert(s * 0real == 0real) by (nonlinear_arith);
        lemma_kept_integer(m, k, 0);
    }
}

/// In rounded arithmetic the cosines that images are transformed with exceed one by three
/// thousandths at most, and those with frequency zero are one.
#[verifier::spinoff_prover]
pub proof fn cosines_are_bounded<N>(m: Model<N>, k: Meaning<N>, len: int, c: int, i: int)
    requires
        is_rounded(m, k),
        1 <= len <= 100,
        0 <= c <= 6,
        0 <= i < len,
    ensures
        is_bounded(k, cosine(m, len, c, i), 1003real / 1000real),
        c == 0 ==> k.value(cosine(m, len, c, i)) == 1real,
{
    let freq = frequency(m, c, len);
    let f = k.value(freq);
    let n = len as real;
    lemma_frequency(m, k, len, c);
    if c == 0 {
        lemma_constant_entry(m, k, freq, i);
    } else {
        let z = size(f);
        let last = (len - 1) as real;
        assert(last == n - 1real);
        assert(last * z <= 20real && i as real * z <= 20real) by (nonlinear_arith)
            requires
                z * n <= 20real,
                0real <= z,
                last == n - 1real,
                0real <= i as real <= last,
        ;
        lemma_entry(m, k, freq, len - 1, i);
        lemma_error_bound(z, i);
    }
}

/// In rounded arithmetic the cosines that images are transformed with are the exact ones up to
/// `31 / 10000`.
#[verifier::spinoff_prover]
pub proof fn cosines_are_near<N>(m: Model<N>, k: Meaning<N>, len: int, c: int, i: int)
    requires
        is_rounded(m, k),
        1 <= len <= 100,
        0 <= c <= 6,
        0 <= i < len,
    ensures
        is_near(k, cosine(m, len, c, i), cosine(k.exact, len, c, i), 31real / 10000real),
{
    let freq = frequency(m, c, len);
    let f = k.value(freq);
    let g = frequency(k.exact, c, len);
    let n = len as real;
    let z = size(f);
    lemma_frequency(m, k, len, c);
    let last = (len - 1) as real;
    assert(last == n - 1real);
    assert(last * z <= 20real && i as real * z <= 20real) by (nonlinear_arith)
        requires
            z * n <= 20real,
            0real <= z,
            last == n - 1real,
            0real <= i as real <= last,
    ;
    lemma_entry(m, k, freq, len - 1, i);
    lemma_error_bound(z, i);
    recurrence_gives_cosines(k.exact, g, i);
    let t = i as real + half();
    assert(k.slope_rule(f * t, g * t));
    assert(size(f * t - g * t) <= micro(10)) by (nonlinear_arith)
        requires
            size(f - g) * n <= micro(10),
            0real <= t <= n,
    {
        assert(f * t - g * t == (f - g) * t);
        assert(size((f - g) * t) == size(f - g) * t);
        assert(size(f - g) * t <= size(f - g) * n);
    }
}

/// In rounded arithmetic the cosines that images are decoded with are the exact ones up to
/// `32 / 100000`.
#[verifier::spinoff_prover]
pub proof fn decoded_cosines_are_near<N>(m: Model<N>, k: Meaning<N>, len: int, c: int, i: int)
    requires
        is_rounded(m, k),
        1 <= len <= 32,
        0 <= c <= 6,
        0 <= i < len,
    ensures
        is_near(k, cosine(m, len, c, i), cosine(k.exact, len, c, i), 32real / 100000real),
        size(cosine(k.exact, len, c, i)) <= 1real,
{
    let freq = frequency(m, c, len);
    let f = k.value(freq);
    let g = frequency(k.exact, c, len);
    let n = len as real;
    let z = size(f);
    lemma_frequency(m, k, len, c);
    let last = (len - 1) as real;
    assert(last == n - 1real);
    assert(last * z <= 20real && i as real * z <= 20real) by (nonlinear_arith)
        requires
            z * n <= 20real,
            0real <= z,
            last == n - 1real,
            0real <= i as real <= last,
    ;
    lemma_entry(m, k, freq, len - 1, i);
    let r = i as real;
    assert(0real <= r * (r - 1real) <= 930real) by (nonlinear_arith)
        requires
            0real <= r <= 31real,
            r == 0real || r >= 1real,
    ;
    assert(r * (4real + 5real * z) == 4real * r + 5real * (r * z)) by (nonlinear_arith);
    assert(5real * r * (r - 1real) == 5real * (r * (r - 1real))) by (nonlinear_arith);
    lemma_unit();
    assert(error_bound(z, i) <= 30real / 100000real);
    recurrence_gives_cosines(k.exact, g, i);
    let t = i as real + half();
    assert(k.slope_rule(f * t, g * t));
    assert(size(f * t - g * t) <= micro(10)) by (nonlinear_arith)
        requires
            size(f - g) * n <= micro(10),
            0real <= t <= n,
    {
        assert(f * t - g * t == (f - g) * t);
        assert(size((f - g) * t) == size(f - g) * t);
        assert(size(f - g) * t <= size(f - g) * n);
    }
}

} // verus!
