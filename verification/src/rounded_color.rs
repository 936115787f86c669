//! The channel values of pixels in an arithmetic that rounds.
use crate::arithmetic::Model;
use crate::color::{alpha_sum, average, component, composite, has_alpha, pixel_lpqa, weighted_sum};
use crate::fidelity::size;
use crate::image::{
    lemma_mean_component, lemma_shown, lemma_weighted_sum_bounds, mean_component, shown, shown_a,
    shown_l, shown_p, shown_q,
};
use crate::rounded::{
    is_near, is_rounded, lemma_integer, lemma_near_minus, lemma_near_plus, lemma_near_times,
    lemma_times, lemma_unit, micro, unit, Meaning,
};
use vstd::prelude::*;

verus! {

/// A quotient of small integers is close to what it stands for.
#[verifier::spinoff_prover]
pub proof fn lemma_ratio<N>(m: Model<N>, k: Meaning<N>, a: int, b: int)
    requires
        is_rounded(m, k),
        0 <= a <= 255,
        1 <= b <= 255,
    ensures
        is_near(
            k,
            m.ratio(a, b),
            a as real / (b as real),
            unit() * (a as real / (b as real)) + unit() * unit(),
        ),
        0real <= a as real / (b as real) <= 255real,
{
    lemma_integer(m, k, a);
    lemma_integer(m, k, b);
    let x = a as real;
    let y = b as real;
    assert(0real <= x / y <= 255real) by (nonlinear_arith)
        requires
            0real <= x <= 255real,
            1real <= y,
    ;
    assert(k.rounds(m.ratio(a, b), x / y));
}

/// A component of an opaque pixel as a part of the largest value.
#[verifier::spinoff_prover]
proof fn lemma_component<N>(m: Model<N>, k: Meaning<N>, value: u8)
    requires
        is_rounded(m, k),
    ensures
        is_near(
            k,
            m.times(m.from_int(value as int), m.ratio(1, 255)),
            value as real / 255real,
            micro(1),
        ),
{
    lemma_unit();
    lemma_integer(m, k, value as int);
    lemma_ratio(m, k, 1, 255);
    let v = value as real;
    let s = k.value(m.ratio(1, 255));
    lemma_times(m, k, m.from_int(value as int), m.ratio(1, 255), 255real, 1real / 254real);
    assert(size(v * s - v / 255real) <= 255real * (unit() / 255real + unit() * unit()))
        by (nonlinear_arith)
        requires
            0real <= v <= 255real,
            size(s - 1real / 255real) <= unit() / 255real + unit() * unit(),
    {
        assert(v * s - v / 255real == v * (s - 1real / 255real));
    }
}

/// The channel values of an opaque pixel are close to what the image shows.
proof fn lemma_opaque_pixel<N>(m: Model<N>, k: Meaning<N>, rgba: Seq<u8>, n: int, i: int)
    requires
        is_rounded(m, k),
        0 <= i < n,
        !has_alpha(rgba, n),
    ensures
        is_near(k, pixel_lpqa(m, rgba, n, i).l, shown_l(rgba, n, i), micro(80)),
        is_near(k, pixel_lpqa(m, rgba, n, i).p, shown_p(rgba, n, i), micro(80)),
        is_near(k, pixel_lpqa(m, rgba, n, i).q, shown_q(rgba, n, i), micro(80)),
{
    let x = shown(rgba, n, 0, i);
    let y = shown(rgba, n, 1, i);
    let z = shown(rgba, n, 2, i);
    let r = m.times(m.from_int(component(rgba, i, 0) as int), m.ratio(1, 255));
    let g = m.times(m.from_int(component(rgba, i, 1) as int), m.ratio(1, 255));
    let b = m.times(m.from_int(component(rgba, i, 2) as int), m.ratio(1, 255));
    lemma_component(m, k, component(rgba, i, 0));
    lemma_component(m, k, component(rgba, i, 1));
    lemma_component(m, k, component(rgba, i, 2));
    let rg = m.plus(r, g);
    let rgb = m.plus(rg, b);
    lemma_near_plus(m, k, r, x, micro(1), g, y, micro(1));
    lemma_near_plus(m, k, rg, x + y, micro(3), b, z, micro(1));
    lemma_ratio(m, k, 1, 3);
    lemma_ratio(m, k, 1, 2);
    lemma_unit();
    assert(is_near(k, m.ratio(1, 3), 1real / 3real, micro(1)));
    assert(is_near(k, m.ratio(1, 2), 1real / 2real, micro(1)));
    lemma_near_times(m, k, rgb, x + y + z, micro(5), m.ratio(1, 3), 1real / 3real, micro(1));
    lemma_near_times(m, k, rg, x + y, micro(3), m.ratio(1, 2), 1real / 2real, micro(1));
    let yellow = m.times(rg, m.ratio(1, 2));
    lemma_near_minus(m, k, yellow, (x + y) * (1real / 2real), micro(8), b, z, micro(1));
    lemma_near_minus(m, k, r, x, micro(1), g, y, micro(1));
}

/// The computed average of a component is close to the average.
#[verifier::spinoff_prover]
proof fn lemma_rounded_average<N>(m: Model<N>, k: Meaning<N>, rgba: Seq<u8>, n: int, c: int)
    requires
        is_rounded(m, k),
        0 <= n <= 10000,
    ensures
        is_near(k, average(m, rgba, n, c), mean_component(rgba, n, c), micro(4)),
{
    lemma_unit();
    lemma_weighted_sum_bounds(rgba, c, n);
    if alpha_sum(rgba, n) > 0 {
        let total = weighted_sum(rgba, c, n);
        let weights = alpha_sum(rgba, n);
        lemma_integer(m, k, weights);
        lemma_integer(m, k, 255);
        lemma_integer(m, k, 1);
        let largest = m.times(m.from_int(weights), m.from_int(255));
        let exact = weights as real * 255real;
        assert(1real <= weights as real <= 2550000real);
        assert(k.rounds(largest, exact));
        let d = k.value(largest);
        assert(exact * (999999real / 1000000real) <= d) by (nonlinear_arith)
            requires
                size(d - exact) <= unit() * size(exact) + unit() * unit(),
                unit() * unit() == 1real / 281474976710656real,
                unit() == 1real / 16777216real,
                255real <= exact,
        ;
        assert(d - exact <= 2real * unit() * exact && exact - d <= 2real * unit() * exact)
            by (nonlinear_arith)
            requires
                size(d - exact) <= unit() * size(exact) + unit() * unit(),
                unit() == 1real / 16777216real,
                255real <= exact,
        ;
        let inverse = m.over(m.from_int(1), largest);
        assert(0real < 1real / d <= 1real) by (nonlinear_arith)
            requires
                254real <= d,
        ;
        assert(k.rounds(inverse, 1real / d));
        let v = k.value(inverse);
        let s = total as real;
        let t = k.value(m.from_int(total));
        assert(k.rounds(m.from_int(total), s));
        assert(size(v * exact - 1real) <= 5real * unit() + unit() * unit() * exact)
            by (nonlinear_arith)
            requires
                size(v - 1real / d) <= unit() * (1real / d) + unit() * unit(),
                d - exact <= 2real * unit() * exact,
                exact - d <= 2real * unit() * exact,
                exact * (999999real / 1000000real) <= d,
                255real <= exact,
                unit() == 1real / 16777216real,
        {
            let r = exact / d;
            assert(r == 1real + (exact - d) / d);
            assert(r <= 1000001real / 999999real);
            assert(size((exact - d) / d) <= 3real * unit());
            assert((1real / d) * exact == r);
            assert(size(v * exact - r) <= unit() * r + unit() * unit() * exact);
            assert(unit() * r <= 2real * unit());
        }
        assert(unit() * unit() * exact <= 232real / 100000000real) by (nonlinear_arith)
            requires
                unit() * unit() == 1real / 281474976710656real,
                exact <= 650250000real,
        ;
        assert(size(t - s) <= 2real * unit() * exact) by (nonlinear_arith)
            requires
                size(t - s) <= unit() * size(s) + unit() * unit(),
                0real <= s <= exact,
                255real <= exact,
                unit() == 1real / 16777216real,
        ;
        let q = mean_component(rgba, n, c);
        assert(q * exact == s) by (nonlinear_arith)
            requires
                q == s / (255real * weights as real),
                exact == weights as real * 255real,
                1real <= weights as real,
        ;
        let w = v * exact;
        assert(size(w - 1real) <= 3real / 1000000real);
        assert(size(t * v - q) <= 33real / 10000000real) by (nonlinear_arith)
            requires
                size(t - s) <= 2real * unit() * exact,
                q * exact == s,
                w == v * exact,
                size(w - 1real) <= 3real / 1000000real,
                0real <= s <= exact,
                255real <= exact,
                unit() == 1real / 16777216real,
        {
            assert(t * v - q == (t - s) * v + q * (w - 1real));
            assert(size((t - s) * v) <= 2real * unit() * size(w));
            assert(0real <= q <= 1real);
            assert(size(q * (w - 1real)) <= 3real / 1000000real);
        }
        lemma_mean_component(rgba, n, c);
        let product = m.times(m.from_int(total), inverse);
        assert(k.rounds(product, t * v));
        assert(unit() * size(t * v) <= 2real * unit()) by (nonlinear_arith)
            requires
                size(t * v) <= 2real,
                unit() == 1real / 16777216real,
        ;
    } else {
        lemma_integer(m, k, 0);
    }
}

/// A quotient of a number by a small integer.
#[verifier::spinoff_prover]
pub proof fn lemma_near_over<N>(m: Model<N>, k: Meaning<N>, a: N, x: real, s: real, d: int)
    requires
        is_rounded(m, k),
        is_near(k, a, x, s),
        size(x) <= 9real,
        0real <= s <= 1real,
        1 <= d <= 255,
    ensures
        is_near(
            k,
            m.over(a, m.from_int(d)),
            x / (d as real),
            s / (d as real) + 10real * unit() / (d as real) + unit() * unit(),
        ),
        s / (d as real) <= s,
        10real * unit() / (d as real) <= 10real * unit(),
{
    lemma_unit();
    lemma_integer(m, k, d);
    let p = k.value(a);
    let y = d as real;
    assert(size(p / y) <= 10real / y && 10real / y <= 10real && size(p / y - x / y) <= s / y
        && s / y <= s && unit() * (10real / y) == 10real * unit() / y && 10real * unit() / y
        <= 10real
        * unit()) by (nonlinear_arith)
        requires
            size(p) <= 10real,
            size(p - x) <= s,
            0real <= s,
            1real <= y,
            unit() == 1real / 16777216real,
    {
        assert(p / y - x / y == (p - x) / y);
    }
    assert(k.rounds(m.over(a, m.from_int(d)), p / y));
    assert(unit() * size(p / y) <= unit() * (10real / y)) by (nonlinear_arith)
        requires
            size(p / y) <= 10real / y,
            unit() == 1real / 16777216real,
    ;
}

/// A composited component is close to what the image shows.
#[verifier::spinoff_prover]
proof fn lemma_rounded_composite<N>(
    m: Model<N>,
    k: Meaning<N>,
    base: N,
    exact: real,
    opacity: u8,
    value: u8,
)
    requires
        is_rounded(m, k),
        is_near(k, base, exact, micro(4)),
        0real <= exact <= 1real,
    ensures
        ({
            let alpha = opacity as real / 255real;
            is_near(
                k,
                composite(m, base, m.ratio(opacity as int, 255), value),
                exact * (1real - alpha) + alpha * (value as real / 255real),
                micro(17),
            )
        }),
{
    let opaque = m.ratio(opacity as int, 255);
    let alpha = opacity as real / 255real;
    let v = value as real;
    let part = v / 255real;
    lemma_unit();
    lemma_integer(m, k, 1);
    lemma_integer(m, k, value as int);
    lemma_ratio(m, k, opacity as int, 255);
    assert(unit() * alpha <= unit()) by (nonlinear_arith)
        requires
            alpha <= 1real,
            unit() == 1real / 16777216real,
    ;
    assert(is_near(k, opaque, alpha, micro(1)));
    let one = m.from_int(1);
    let rest = m.minus(one, opaque);
    lemma_near_minus(m, k, one, 1real, 0real, opaque, alpha, micro(1));
    lemma_near_times(m, k, base, exact, micro(4), rest, 1real - alpha, micro(2));
    let background = m.times(base, rest);
    lemma_near_over(m, k, opaque, alpha, micro(1), 255);
    let weight = m.over(opaque, m.from_int(255));
    let t = 7real / 1000000000real;
    assert(is_near(k, weight, alpha / 255real, t));
    lemma_times(m, k, weight, m.from_int(value as int), 1real / 250real, 255real);
    let w = k.value(weight);
    assert(size(w * v - alpha * part) <= 255real * t) by (nonlinear_arith)
        requires
            size(w - alpha / 255real) <= t,
            0real <= v <= 255real,
            part == v / 255real,
    {
        assert(w * v - alpha * part == (w - alpha / 255real) * v);
    }
    let foreground = m.times(weight, m.from_int(value as int));
    assert(is_near(k, foreground, alpha * part, micro(3)));
    assert(0real <= exact * (1real - alpha) <= 1real && 0real <= alpha * part <= 1real)
        by (nonlinear_arith)
        requires
            0real <= exact <= 1real,
            0real <= alpha <= 1real,
            0real <= part <= 1real,
    ;
    lemma_near_plus(
        m,
        k,
        background,
        exact * (1real - alpha),
        micro(13),
        foreground,
        alpha * part,
        micro(3),
    );
}

/// The channel values of a pixel of an image with transparency are close to what the image shows.
#[verifier::spinoff_prover]
proof fn lemma_blended_pixel<N>(m: Model<N>, k: Meaning<N>, rgba: Seq<u8>, n: int, i: int)
    requires
        is_rounded(m, k),
        0 <= i < n <= 10000,
        has_alpha(rgba, n),
    ensures
        is_near(k, pixel_lpqa(m, rgba, n, i).l, shown_l(rgba, n, i), micro(80)),
        is_near(k, pixel_lpqa(m, rgba, n, i).p, shown_p(rgba, n, i), micro(80)),
        is_near(k, pixel_lpqa(m, rgba, n, i).q, shown_q(rgba, n, i), micro(80)),
        is_near(k, pixel_lpqa(m, rgba, n, i).a, shown_a(rgba, i), micro(1)),
{
    lemma_unit();
    let x = shown(rgba, n, 0, i);
    let y = shown(rgba, n, 1, i);
    let z = shown(rgba, n, 2, i);
    lemma_shown(rgba, n, 0, i);
    lemma_shown(rgba, n, 1, i);
    lemma_shown(rgba, n, 2, i);
    let opacity = component(rgba, i, 3);
    let opaque = m.ratio(opacity as int, 255);
    let r = composite(m, average(m, rgba, n, 0), opaque, component(rgba, i, 0));
    let g = composite(m, average(m, rgba, n, 1), opaque, component(rgba, i, 1));
    let b = composite(m, average(m, rgba, n, 2), opaque, component(rgba, i, 2));
    assert(is_near(k, r, x, micro(17))) by {
        lemma_rounded_average(m, k, rgba, n, 0);
        lemma_mean_component(rgba, n, 0);
        lemma_rounded_composite(
            m,
            k,
            average(m, rgba, n, 0),
            mean_component(rgba, n, 0),
            opacity,
            component(rgba, i, 0),
        );
    }
    assert(is_near(k, g, y, micro(17))) by {
        lemma_rounded_average(m, k, rgba, n, 1);
        lemma_mean_component(rgba, n, 1);
        lemma_rounded_composite(
            m,
            k,
            average(m, rgba, n, 1),
            mean_component(rgba, n, 1),
            opacity,
            component(rgba, i, 1),
        );
    }
    assert(is_near(k, b, z, micro(17))) by {
        lemma_rounded_average(m, k, rgba, n, 2);
        lemma_mean_component(rgba, n, 2);
        lemma_rounded_composite(
            m,
            k,
            average(m, rgba, n, 2),
            mean_component(rgba, n, 2),
            opacity,
            component(rgba, i, 2),
        );
    }
    let rg = m.plus(r, g);
    let rgb = m.plus(rg, b);
    lemma_near_plus(m, k, r, x, micro(17), g, y, micro(17));
    lemma_near_plus(m, k, rg, x + y, micro(35), b, z, micro(17));
    lemma_near_over(m, k, rgb, x + y + z, micro(53), 3);
    lemma_near_over(m, k, rg, x + y, micro(35), 2);
    let yellow = m.over(rg, m.from_int(2));
    assert(is_near(k, yellow, (x + y) / 2real, micro(37)));
    lemma_near_minus(m, k, yellow, (x + y) / 2real, micro(37), b, z, micro(17));
    lemma_near_minus(m, k, r, x, micro(17), g, y, micro(17));
    lemma_ratio(m, k, opacity as int, 255);
    let alpha = shown_a(rgba, i);
    assert(unit() * alpha <= unit()) by (nonlinear_arith)
        requires
            alpha <= 1real,
            unit() == 1real / 16777216real,
    ;
}

/// In rounded arithmetic the channel values of a pixel are close to what the image shows.
pub proof fn channel_values_are_near<N>(m: Model<N>, k: Meaning<N>, rgba: Seq<u8>, n: int, i: int)
    requires
        is_rounded(m, k),
        0 <= i < n <= 10000,
    ensures
        is_near(k, pixel_lpqa(m, rgba, n, i).l, shown_l(rgba, n, i), micro(80)),
        is_near(k, pixel_lpqa(m, rgba, n, i).p, shown_p(rgba, n, i), micro(80)),
        is_near(k, pixel_lpqa(m, rgba, n, i).q, shown_q(rgba, n, i), micro(80)),
        is_near(k, pixel_lpqa(m, rgba, n, i).a, shown_a(rgba, i), micro(1)),
        0real <= shown_l(rgba, n, i) <= 1real,
        -1real <= shown_p(rgba, n, i) <= 1real,
        -1real <= shown_q(rgba, n, i) <= 1real,
        0real <= shown_a(rgba, i) <= 1real,
{
    lemma_shown(rgba, n, 0, i);
    lemma_shown(rgba, n, 1, i);
    lemma_shown(rgba, n, 2, i);
    if has_alpha(rgba, n) {
        lemma_blended_pixel(m, k, rgba, n, i);
    } else {
        lemma_opaque_pixel(m, k, rgba, n, i);
        lemma_integer(m, k, 1);
        assert(!(component(rgba, i, 3) != 255));
    }
}

} // verus!
