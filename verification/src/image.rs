//! What an image shows, in real numbers: its pixels over its average colour, as the values of
//! the channels, and their averages.
use crate::color::{alpha_sum, component, has_alpha, weighted_sum};
use crate::exact::sum;
use crate::fidelity::lemma_real_product;
use vstd::prelude::*;

verus! {

/// The average of the component `c` of an image, weighted by alpha, as a part of the largest
/// value; zero where the whole image is transparent.
pub open spec fn mean_component(rgba: Seq<u8>, n: int, c: int) -> real {
    if alpha_sum(rgba, n) > 0 {
        weighted_sum(rgba, c, n) as real / (255real * alpha_sum(rgba, n) as real)
    } else {
        0real
    }
}

/// The average of the alpha components of an image, as a part of the largest value.
pub open spec fn mean_alpha(rgba: Seq<u8>, n: int) -> real {
    alpha_sum(rgba, n) as real / (255real * n as real)
}

/// The component `c` of the pixel `i`, over the average colour of the image, as a part of the
/// largest value.
pub open spec fn shown(rgba: Seq<u8>, n: int, c: int, i: int) -> real {
    let alpha = component(rgba, i, 3) as real / 255real;
    let value = component(rgba, i, c) as real / 255real;
    if has_alpha(rgba, n) {
        mean_component(rgba, n, c) * (1real - alpha) + alpha * value
    } else {
        value
    }
}

/// The luminance of the pixel `i`, over the average colour of the image.
pub open spec fn shown_l(rgba: Seq<u8>, n: int, i: int) -> real {
    (shown(rgba, n, 0, i) + shown(rgba, n, 1, i) + shown(rgba, n, 2, i)) / 3real
}

/// The first chroma value of the pixel `i`, over the average colour of the image.
pub open spec fn shown_p(rgba: Seq<u8>, n: int, i: int) -> real {
    (shown(rgba, n, 0, i) + shown(rgba, n, 1, i)) / 2real - shown(rgba, n, 2, i)
}

/// The second chroma value of the pixel `i`, over the average colour of the image.
pub open spec fn shown_q(rgba: Seq<u8>, n: int, i: int) -> real {
    shown(rgba, n, 0, i) - shown(rgba, n, 1, i)
}

/// The alpha value of the pixel `i`.
pub open spec fn shown_a(rgba: Seq<u8>, i: int) -> real {
    component(rgba, i, 3) as real / 255real
}

/// Weighted sums are at most as large as the weights allow.
pub proof fn lemma_weighted_sum_bounds(rgba: Seq<u8>, c: int, n: int)
    requires
        0 <= n,
    ensures
        0 <= alpha_sum(rgba, n) <= 255 * n,
        0 <= weighted_sum(rgba, c, n) <= 255 * alpha_sum(rgba, n),
    decreases n,
{
    if n > 0 {
        lemma_weighted_sum_bounds(rgba, c, n - 1);
        let a = component(rgba, n - 1, 3);
        let v = component(rgba, n - 1, c);
        assert(0 <= a * v <= 255 * a) by (nonlinear_arith)
            requires
                0 <= v <= 255,
                0 <= a,
        ;
    }
}

/// The average of a component lies between zero and one.
pub proof fn lemma_mean_component(rgba: Seq<u8>, n: int, c: int)
    requires
        0 <= n,
    ensures
        0real <= mean_component(rgba, n, c) <= 1real,
{
    lemma_weighted_sum_bounds(rgba, c, n);
    if alpha_sum(rgba, n) > 0 {
        let s = weighted_sum(rgba, c, n) as real;
        let a = alpha_sum(rgba, n) as real;
        assert(0real <= s / (255real * a) <= 1real) by (nonlinear_arith)
            requires
                0real <= s <= 255real * a,
                a >= 1real,
        ;
    }
}

/// Every component over the average colour lies between zero and one.
pub proof fn lemma_shown(rgba: Seq<u8>, n: int, c: int, i: int)
    requires
        0 <= n,
    ensures
        0real <= shown(rgba, n, c, i) <= 1real,
{
    lemma_mean_component(rgba, n, c);
    let base = mean_component(rgba, n, c);
    let alpha = component(rgba, i, 3) as real / 255real;
    let value = component(rgba, i, c) as real / 255real;
    assert(0real <= base * (1real - alpha) + alpha * value <= 1real) by (nonlinear_arith)
        requires
            0real <= base <= 1real,
            0real <= alpha <= 1real,
            0real <= value <= 1real,
    ;
}

/// The first `k` pixels, over the average colour, sum up to that colour where they are
/// transparent and to their own colour where they are not.
proof fn lemma_sum_shown(rgba: Seq<u8>, n: int, c: int, k: int)
    requires
        0 <= k <= n,
    ensures
        sum(|i: int| shown(rgba, n, c, i), k) == mean_component(rgba, n, c) * (k as real
            - alpha_sum(rgba, k) as real / 255real) + weighted_sum(rgba, c, k) as real / 65025real,
    decreases k,
{
    let base = mean_component(rgba, n, c);
    if k > 0 {
        lemma_sum_shown(rgba, n, c, k - 1);
        let opacity = component(rgba, k - 1, 3);
        let value = component(rgba, k - 1, c);
        lemma_real_product(opacity as int, value as int);
        let a = alpha_sum(rgba, k - 1) as real;
        let v = opacity as real * value as real;
        let alpha = opacity as real / 255real;
        assert((k - 1) as real == k as real - 1real);
        assert(sum(|i: int| shown(rgba, n, c, i), k) == sum(|i: int| shown(rgba, n, c, i), k - 1)
            + shown(rgba, n, c, k - 1));
        assert(alpha * (value as real / 255real) == v / 65025real) by (nonlinear_arith)
            requires
                alpha == opacity as real / 255real,
                v == opacity as real * value as real,
        ;
        if !has_alpha(rgba, n) {
            assert(!(opacity != 255));
            let part = value as real / 255real;
            assert(base * (1real - alpha) == 0real && alpha * part == part) by (nonlinear_arith)
                requires
                    alpha == 1real,
            ;
        }
        assert(base * (k as real - 1real - a / 255real) + base * (1real - alpha) == base * (
        k as real - (a + opacity as real) / 255real)) by (nonlinear_arith)
            requires
                alpha == opacity as real / 255real,
        ;
    } else {
        assert(base * (0real - 0real / 255real) == 0real) by (nonlinear_arith);
    }
}

/// The average of an image's pixels over its average colour is that colour.
proof fn lemma_mean_shown(rgba: Seq<u8>, n: int, c: int)
    requires
        0 < n,
    ensures
        sum(|i: int| shown(rgba, n, c, i), n) == mean_component(rgba, n, c) * n as real,
{
    let base = mean_component(rgba, n, c);
    lemma_sum_shown(rgba, n, c, n);
    lemma_weighted_sum_bounds(rgba, c, n);
    let a = alpha_sum(rgba, n) as real;
    let s = weighted_sum(rgba, c, n) as real;
    if alpha_sum(rgba, n) > 0 {
        assert(base * (n as real - a / 255real) + s / 65025real == base * n as real)
            by (nonlinear_arith)
            requires
                base == s / (255real * a),
                a >= 1real,
        ;
    } else {
        assert(0real * (n as real - a / 255real) == 0real) by (nonlinear_arith);
        assert(0real * n as real == 0real) by (nonlinear_arith);
    }
}

/// The sums of the channel values of the first `k` pixels, from the sums of their components.
proof fn lemma_channel_sums(rgba: Seq<u8>, n: int, k: int)
    requires
        0 <= k <= n,
    ensures
        ({
            let r = sum(|i: int| shown(rgba, n, 0, i), k);
            let g = sum(|i: int| shown(rgba, n, 1, i), k);
            let b = sum(|i: int| shown(rgba, n, 2, i), k);
            &&& sum(|i: int| shown_l(rgba, n, i), k) == (r + g + b) / 3real
            &&& sum(|i: int| shown_p(rgba, n, i), k) == (r + g) / 2real - b
            &&& sum(|i: int| shown_q(rgba, n, i), k) == r - g
        }),
        sum(|i: int| shown_a(rgba, i), k) == alpha_sum(rgba, k) as real / 255real,
    decreases k,
{
    if k > 0 {
        lemma_channel_sums(rgba, n, k - 1);
    }
}

/// The averages of the channel values of an image are the channel values of its average colour,
/// and the average of its alpha values is that of its alpha components.
pub proof fn channel_means(rgba: Seq<u8>, n: int)
    requires
        0 < n,
    ensures
        ({
            let r = mean_component(rgba, n, 0);
            let g = mean_component(rgba, n, 1);
            let b = mean_component(rgba, n, 2);
            &&& sum(|i: int| shown_l(rgba, n, i), n) / (n as real) == (r + g + b) / 3real
            &&& sum(|i: int| shown_p(rgba, n, i), n) / (n as real) == (r + g) / 2real - b
            &&& sum(|i: int| shown_q(rgba, n, i), n) / (n as real) == r - g
        }),
        sum(|i: int| shown_a(rgba, i), n) / (n as real) == mean_alpha(rgba, n),
{
    let r = mean_component(rgba, n, 0);
    let g = mean_component(rgba, n, 1);
    let b = mean_component(rgba, n, 2);
    let d = n as real;
    lemma_channel_sums(rgba, n, n);
    lemma_mean_shown(rgba, n, 0);
    lemma_mean_shown(rgba, n, 1);
    lemma_mean_shown(rgba, n, 2);
    assert((r * d + g * d + b * d) / 3real / d == (r + g + b) / 3real) by (nonlinear_arith)
        requires
            d >= 1real,
    ;
    assert(((r * d + g * d) / 2real - b * d) / d == (r + g) / 2real - b) by (nonlinear_arith)
        requires
            d >= 1real,
    ;
    assert((r * d - g * d) / d == r - g) by (nonlinear_arith)
        requires
            d >= 1real,
    ;
    let a = alpha_sum(rgba, n) as real;
    assert(a / 255real / d == a / (255real * d)) by (nonlinear_arith)
        requires
            d >= 1real,
    ;
}

} // verus!
