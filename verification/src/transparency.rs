//! What lies under wholly transparent pixels.
use crate::arithmetic::Model;
use crate::color::{
    alpha_sum, average, component, composite, has_alpha, pixel_lpqa, plane_a, plane_l, plane_p,
    plane_q, weighted_sum,
};
use crate::encoder::{encoded_alpha, encoded_header, encoded_nibbles, thumb_hash};
use crate::exact::is_exact;
use crate::rounded::{is_rounded, zero_rule, Meaning};
use vstd::prelude::*;

verus! {

/// Whether the first `n` pixels of two images look the same: their alpha components are equal,
/// and so are their colours wherever they are not wholly transparent.
pub open spec fn look_the_same(rgba: Seq<u8>, other: Seq<u8>, n: int) -> bool {
    &&& forall|i: int|
        0 <= i < n ==> #[trigger] component(rgba, i, 3) == component(other, i, 3)
    &&& forall|i: int, c: int|
        0 <= i < n && 0 <= c < 3 && component(rgba, i, 3) > 0 ==> #[trigger] component(rgba, i, c)
            == component(other, i, c)
}

/// Whether a component that is composited with no weight has no influence on the result.
pub open spec fn hides_transparent<N>(m: Model<N>) -> bool {
    forall|base: N, u: u8, v: u8|
        #![trigger composite(m, base, m.ratio(0, 255), u), composite(m, base, m.ratio(0, 255), v)]
        composite(m, base, m.ratio(0, 255), u) == composite(m, base, m.ratio(0, 255), v)
}

/// In exact arithmetic a component with no weight has no influence.
pub proof fn exact_arithmetic_hides_transparent(m: Model<real>)
    requires
        is_exact(m),
    ensures
        hides_transparent(m),
{
    assert forall|base: real, u: u8, v: u8|
        #![trigger composite(m, base, m.ratio(0, 255), u), composite(m, base, m.ratio(0, 255), v)]
        composite(m, base, m.ratio(0, 255), u) == composite(m, base, m.ratio(0, 255), v) by {
        assert(m.ratio(0, 255) == 0real);
        assert(m.over(0real, 255real) == 0real);
        assert(0real * u as real == 0real && 0real * v as real == 0real) by (nonlinear_arith);
    }
}

/// In rounded arithmetic a component with no weight has no influence.
pub proof fn rounded_arithmetic_hides_transparent<N>(m: Model<N>, k: Meaning<N>)
    requires
        is_rounded(m, k),
    ensures
        hides_transparent(m),
{
    assert(zero_rule(m, 255));
    assert forall|base: N, u: u8, v: u8|
        #![trigger composite(m, base, m.ratio(0, 255), u), composite(m, base, m.ratio(0, 255), v)]
        composite(m, base, m.ratio(0, 255), u) == composite(m, base, m.ratio(0, 255), v) by {
        assert(zero_rule(m, u as u32));
        assert(zero_rule(m, v as u32));
    }
}

/// The first pixels of images that look the same have the same sums.
proof fn lemma_equal_sums(rgba: Seq<u8>, other: Seq<u8>, n: int, c: int, k: int)
    requires
        look_the_same(rgba, other, n),
        0 <= k <= n,
        0 <= c < 3,
    ensures
        alpha_sum(rgba, k) == alpha_sum(other, k),
        weighted_sum(rgba, c, k) == weighted_sum(other, c, k),
    decreases k,
{
    if k > 0 {
        lemma_equal_sums(rgba, other, n, c, k - 1);
        let a = component(rgba, k - 1, 3);
        let u = component(rgba, k - 1, c);
        let v = component(other, k - 1, c);
        assert(a == component(other, k - 1, 3));
        assert(a * u == a * v) by (nonlinear_arith)
            requires
                a == 0 || u == v,
        ;
    }
}

/// The pixels of images that look the same have the same channel values.
proof fn lemma_equal_pixels<N>(m: Model<N>, rgba: Seq<u8>, other: Seq<u8>, n: int, i: int)
    requires
        hides_transparent(m),
        look_the_same(rgba, other, n),
        has_alpha(rgba, n) == has_alpha(other, n),
        0 <= i < n,
    ensures
        pixel_lpqa(m, rgba, n, i) == pixel_lpqa(m, other, n, i),
{
    lemma_equal_sums(rgba, other, n, 0, n);
    lemma_equal_sums(rgba, other, n, 1, n);
    lemma_equal_sums(rgba, other, n, 2, n);
    let opacity = component(rgba, i, 3);
    assert(opacity == component(other, i, 3));
    if opacity > 0 {
        assert(component(rgba, i, 0) == component(other, i, 0));
        assert(component(rgba, i, 1) == component(other, i, 1));
        assert(component(rgba, i, 2) == component(other, i, 2));
    } else {
        assert(has_alpha(rgba, n));
        let none = m.ratio(0, 255);
        assert forall|c: int| 0 <= c < 3 implies composite(
            m,
            average(m, rgba, n, c),
            none,
            #[trigger] component(rgba, i, c),
        ) == composite(m, average(m, other, n, c), none, component(other, i, c)) by {
            lemma_equal_sums(rgba, other, n, c, n);
        }
    }
}

/// The colours of wholly transparent pixels never reach the hash: two images that look the same
/// have the same hash, in every arithmetic in which a component with no weight has no influence.
pub proof fn hidden_colours_do_not_matter<N>(
    m: Model<N>,
    w: int,
    h: int,
    rgba: Seq<u8>,
    other: Seq<u8>,
)
    requires
        hides_transparent(m),
        0 <= w,
        0 <= h,
        look_the_same(rgba, other, w * h),
    ensures
        thumb_hash(m, w, h, rgba) == thumb_hash(m, w, h, other),
{
    let n = w * h;
    assert(0 <= n) by (nonlinear_arith)
        requires
            n == w * h,
            0 <= w,
            0 <= h,
    ;
    assert(has_alpha(rgba, n) == has_alpha(other, n)) by {
        if has_alpha(rgba, n) {
            let i = choose|i: int| 0 <= i < n && #[trigger] component(rgba, i, 3) != 255;
            assert(component(other, i, 3) != 255);
        }
        if has_alpha(other, n) {
            let i = choose|i: int| 0 <= i < n && #[trigger] component(other, i, 3) != 255;
            assert(component(rgba, i, 3) != 255);
        }
    }
    assert forall|i: int| 0 <= i < n implies #[trigger] pixel_lpqa(m, rgba, n, i) == pixel_lpqa(
        m,
        other,
        n,
        i,
    ) by {
        lemma_equal_pixels(m, rgba, other, n, i);
    }
    assert(plane_l(m, rgba, n) =~= plane_l(m, other, n));
    assert(plane_p(m, rgba, n) =~= plane_p(m, other, n));
    assert(plane_q(m, rgba, n) =~= plane_q(m, other, n));
    assert(plane_a(m, rgba, n) =~= plane_a(m, other, n));
    assert(encoded_header(m, w, h, rgba) == encoded_header(m, w, h, other));
    assert(encoded_alpha(m, w, h, rgba) == encoded_alpha(m, w, h, other));
    assert(encoded_nibbles(m, w, h, rgba) == encoded_nibbles(m, w, h, other));
}

/// In exact arithmetic two images that look the same have the same hash.
pub proof fn images_that_look_the_same(
    m: Model<real>,
    w: int,
    h: int,
    rgba: Seq<u8>,
    other: Seq<u8>,
)
    requires
        is_exact(m),
        0 <= w,
        0 <= h,
        look_the_same(rgba, other, w * h),
    ensures
        thumb_hash(m, w, h, rgba) == thumb_hash(m, w, h, other),
{
    exact_arithmetic_hides_transparent(m);
    hidden_colours_do_not_matter(m, w, h, rgba, other);
}

/// In rounded arithmetic two images that look the same have the same hash.
pub proof fn rounded_images_that_look_the_same<N>(
    m: Model<N>,
    k: Meaning<N>,
    w: int,
    h: int,
    rgba: Seq<u8>,
    other: Seq<u8>,
)
    requires
        is_rounded(m, k),
        0 <= w,
        0 <= h,
        look_the_same(rgba, other, w * h),
    ensures
        thumb_hash(m, w, h, rgba) == thumb_hash(m, w, h, other),
{
    rounded_arithmetic_hides_transparent(m, k);
    hidden_colours_do_not_matter(m, w, h, rgba, other);
}

} // verus!
