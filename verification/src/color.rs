//! Pixels and the channels that they are stored in: luminance, two chroma channels (yellow
//! against blue and red against green) and alpha.
use crate::arithmetic::{describes, ratio, Arithmetic, Model};
use crate::geometry::MAX_SIDE;
use crate::saturate::{byte_of, to_byte};
use vstd::prelude::*;

verus! {

/// The component `c` of the pixel `i`, where the components of a pixel are red, green, blue and
/// alpha.
pub open spec fn component(rgba: Seq<u8>, i: int, c: int) -> u8 {
    rgba[4 * i + c]
}

/// Whether one of the first `n` pixels is not opaque.
pub open spec fn has_alpha(rgba: Seq<u8>, n: int) -> bool {
    exists|i: int| 0 <= i < n && #[trigger] component(rgba, i, 3) != 255
}

/// The sum of the alpha components of the first `n` pixels.
pub open spec fn alpha_sum(rgba: Seq<u8>, n: int) -> int
    decreases n,
{
    if n <= 0 {
        0
    } else {
        alpha_sum(rgba, n - 1) + component(rgba, n - 1, 3)
    }
}

/// The sum of the component `c` over the first `n` pixels, weighted by their alpha components.
pub open spec fn weighted_sum(rgba: Seq<u8>, c: int, n: int) -> int
    decreases n,
{
    if n <= 0 {
        0
    } else {
        weighted_sum(rgba, c, n - 1) + component(rgba, n - 1, 3) * component(rgba, n - 1, c)
    }
}

/// The sums of an image's alpha components and of its colour components weighted by them.
pub struct Sums {
    pub r: u32,
    pub g: u32,
    pub b: u32,
    pub a: u32,
}

/// Whether `sums` are the sums over the first `n` pixels.
pub open spec fn are_sums(rgba: Seq<u8>, n: int, sums: Sums) -> bool {
    &&& sums.r == weighted_sum(rgba, 0, n)
    &&& sums.g == weighted_sum(rgba, 1, n)
    &&& sums.b == weighted_sum(rgba, 2, n)
    &&& sums.a == alpha_sum(rgba, n)
}

/// Sums the components of an image up.
pub fn sum_pixels(rgba: &[u8]) -> (sums: Sums)
    requires
        rgba@.len() % 4 == 0,
        rgba@.len() <= 4 * MAX_SIDE * MAX_SIDE,
    ensures
        are_sums(rgba@, rgba@.len() as int / 4, sums),
{
    let n = rgba.len() / 4;
    let mut sums = Sums { r: 0, g: 0, b: 0, a: 0 };
    let mut i: usize = 0;
    while i < n
        invariant
            i <= n <= 10000,
            4 * n == rgba@.len(),
            are_sums(rgba@, i as int, sums),
            sums.r <= 65025 * i,
            sums.g <= 65025 * i,
            sums.b <= 65025 * i,
            sums.a <= 255 * i,
        decreases n - i,
    {
        let r = rgba[4 * i] as u32;
        let g = rgba[4 * i + 1] as u32;
        let b = rgba[4 * i + 2] as u32;
        let a = rgba[4 * i + 3] as u32;
        assert(0 <= a * r <= 65025 && 0 <= a * g <= 65025 && 0 <= a * b <= 65025)
            by (nonlinear_arith)
            requires
                r <= 255,
                g <= 255,
                b <= 255,
                a <= 255,
        ;
        assert(component(rgba@, i as int, 3) == a);
        assert(component(rgba@, i as int, 0) == r);
        assert(component(rgba@, i as int, 1) == g);
        assert(component(rgba@, i as int, 2) == b);
        sums = Sums { r: sums.r + a * r, g: sums.g + a * g, b: sums.b + a * b, a: sums.a + a };
        i += 1;
    }
    sums
}

/// An image is opaque just where its alpha components sum up to the largest possible sum.
pub proof fn lemma_has_alpha(rgba: Seq<u8>, n: int)
    requires
        0 <= n,
    ensures
        alpha_sum(rgba, n) <= 255 * n,
        has_alpha(rgba, n) <==> alpha_sum(rgba, n) < 255 * n,
    decreases n,
{
    if n > 0 {
        lemma_has_alpha(rgba, n - 1);
        if has_alpha(rgba, n - 1) {
            let i = choose|i: int| 0 <= i < n - 1 && #[trigger] component(rgba, i, 3) != 255;
            assert(0 <= i < n && component(rgba, i, 3) != 255);
        } else if component(rgba, n - 1, 3) != 255 {
            assert(has_alpha(rgba, n));
        } else {
            assert forall|i: int| 0 <= i < n implies #[trigger] component(rgba, i, 3) == 255 by {
                if i < n - 1 {
                    assert(!(component(rgba, i, 3) != 255));
                }
            }
        }
    }
}

/// The average of the component `c` of an image, weighted by alpha, as a part of the largest
/// value; zero where the whole image is transparent.
pub open spec fn average<N>(m: Model<N>, rgba: Seq<u8>, n: int, c: int) -> N {
    if alpha_sum(rgba, n) > 0 {
        m.times(
            m.from_int(weighted_sum(rgba, c, n)),
            m.over(
                m.from_int(1),
                m.times(m.from_int(alpha_sum(rgba, n)), m.from_int(255)),
            ),
        )
    } else {
        m.from_int(0)
    }
}

/// A component over the average colour `base`.
pub open spec fn composite<N>(m: Model<N>, base: N, alpha: N, value: u8) -> N {
    m.plus(
        m.times(base, m.minus(m.from_int(1), alpha)),
        m.times(m.over(alpha, m.from_int(255)), m.from_int(value as int)),
    )
}

/// The luminance, the two chroma values and the alpha value of a pixel.
pub struct Lpqa<N> {
    pub l: N,
    pub p: N,
    pub q: N,
    pub a: N,
}

/// The channel values of a pixel of an opaque image.
pub open spec fn opaque_lpqa<N>(m: Model<N>, red: u8, green: u8, blue: u8) -> Lpqa<N> {
    let r = m.times(m.from_int(red as int), m.ratio(1, 255));
    let g = m.times(m.from_int(green as int), m.ratio(1, 255));
    let b = m.times(m.from_int(blue as int), m.ratio(1, 255));
    Lpqa {
        l: m.times(m.plus(m.plus(r, g), b), m.ratio(1, 3)),
        p: m.minus(m.times(m.plus(r, g), m.ratio(1, 2)), b),
        q: m.minus(r, g),
        a: m.from_int(1),
    }
}

/// The channel values of a pixel of an image with the average colour `(avg_r, avg_g, avg_b)`.
pub open spec fn blended_lpqa<N>(
    m: Model<N>,
    avg_r: N,
    avg_g: N,
    avg_b: N,
    red: u8,
    green: u8,
    blue: u8,
    opacity: u8,
) -> Lpqa<N> {
    let alpha = m.ratio(opacity as int, 255);
    let r = composite(m, avg_r, alpha, red);
    let g = composite(m, avg_g, alpha, green);
    let b = composite(m, avg_b, alpha, blue);
    Lpqa {
        l: m.over(m.plus(m.plus(r, g), b), m.from_int(3)),
        p: m.minus(m.over(m.plus(r, g), m.from_int(2)), b),
        q: m.minus(r, g),
        a: alpha,
    }
}

/// The channel values of the pixel `i` of an image of `n` pixels.
pub open spec fn pixel_lpqa<N>(m: Model<N>, rgba: Seq<u8>, n: int, i: int) -> Lpqa<N> {
    if has_alpha(rgba, n) {
        blended_lpqa(
            m,
            average(m, rgba, n, 0),
            average(m, rgba, n, 1),
            average(m, rgba, n, 2),
            component(rgba, i, 0),
            component(rgba, i, 1),
            component(rgba, i, 2),
            component(rgba, i, 3),
        )
    } else {
        opaque_lpqa(m, component(rgba, i, 0), component(rgba, i, 1), component(rgba, i, 2))
    }
}

/// Converts a pixel of an opaque image to its channel values.
fn convert_opaque<A: Arithmetic>(red: u8, green: u8, blue: u8) -> (v: Lpqa<A::Num>)
    ensures
        forall|m: Model<A::Num>| #[trigger]
            describes::<A>(m) ==> v == opaque_lpqa(m, red, green, blue),
{
    let share = ratio::<A>(1, 255);
    let r = A::times(A::from_int(red as u32), share);
    let g = A::times(A::from_int(green as u32), share);
    let b = A::times(A::from_int(blue as u32), share);
    let rg = A::plus(r, g);
    let rgb = A::plus(rg, b);
    let third = ratio::<A>(1, 3);
    let half = ratio::<A>(1, 2);
    let yellow = A::times(rg, half);
    Lpqa {
        l: A::times(rgb, third),
        p: A::minus(yellow, b),
        q: A::minus(r, g),
        a: A::from_int(1),
    }
}

/// Composites a component over the average colour.
fn blend<A: Arithmetic>(base: A::Num, alpha: A::Num, value: u8) -> (v: A::Num)
    ensures
        forall|m: Model<A::Num>| #[trigger]
            describes::<A>(m) ==> v == composite(m, base, alpha, value),
{
    let one = A::from_int(1);
    let rest = A::minus(one, alpha);
    let background = A::times(base, rest);
    let weight = A::over(alpha, A::from_int(255));
    let foreground = A::times(weight, A::from_int(value as u32));
    A::plus(background, foreground)
}

/// Converts a pixel of an image with the given average colour to its channel values.
fn convert_blended<A: Arithmetic>(
    avg_r: A::Num,
    avg_g: A::Num,
    avg_b: A::Num,
    red: u8,
    green: u8,
    blue: u8,
    opacity: u8,
) -> (v: Lpqa<A::Num>)
    ensures
        forall|m: Model<A::Num>| #[trigger]
            describes::<A>(m) ==> v == blended_lpqa(
                m,
                avg_r,
                avg_g,
                avg_b,
                red,
                green,
                blue,
                opacity,
            ),
{
    let alpha = ratio::<A>(opacity as u32, 255);
    let r = blend::<A>(avg_r, alpha, red);
    let g = blend::<A>(avg_g, alpha, green);
    let b = blend::<A>(avg_b, alpha, blue);
    let rg = A::plus(r, g);
    let rgb = A::plus(rg, b);
    let yellow = A::over(rg, A::from_int(2));
    Lpqa { l: A::over(rgb, A::from_int(3)), p: A::minus(yellow, b), q: A::minus(r, g), a: alpha }
}

/// The channels of an image, each row by row.
pub struct Planes<N> {
    pub l: Vec<N>,
    pub p: Vec<N>,
    pub q: Vec<N>,
    pub a: Vec<N>,
}

/// The luminance channel of an image of `n` pixels.
pub open spec fn plane_l<N>(m: Model<N>, rgba: Seq<u8>, n: int) -> Seq<N> {
    Seq::new(n as nat, |i: int| pixel_lpqa(m, rgba, n, i).l)
}

/// The first chroma channel of an image of `n` pixels.
pub open spec fn plane_p<N>(m: Model<N>, rgba: Seq<u8>, n: int) -> Seq<N> {
    Seq::new(n as nat, |i: int| pixel_lpqa(m, rgba, n, i).p)
}

/// The second chroma channel of an image of `n` pixels.
pub open spec fn plane_q<N>(m: Model<N>, rgba: Seq<u8>, n: int) -> Seq<N> {
    Seq::new(n as nat, |i: int| pixel_lpqa(m, rgba, n, i).q)
}

/// The alpha channel of an image of `n` pixels.
pub open spec fn plane_a<N>(m: Model<N>, rgba: Seq<u8>, n: int) -> Seq<N> {
    Seq::new(n as nat, |i: int| pixel_lpqa(m, rgba, n, i).a)
}

/// Whether `planes` are the channels of an image of `n` pixels.
pub open spec fn are_planes<N>(m: Model<N>, rgba: Seq<u8>, n: int, planes: Planes<N>) -> bool {
    &&& planes.l@ == plane_l(m, rgba, n)
    &&& planes.p@ == plane_p(m, rgba, n)
    &&& planes.q@ == plane_q(m, rgba, n)
    &&& planes.a@ == plane_a(m, rgba, n)
}

/// Divides a weighted sum by the largest possible one with the same weights.
fn divide_sum<A: Arithmetic>(sum: u32, weights: u32) -> (v: A::Num)
    ensures
        forall|m: Model<A::Num>| #[trigger]
            describes::<A>(m) ==> v == if weights > 0 {
                m.times(
                    m.from_int(sum as int),
                    m.over(
                        m.from_int(1),
                        m.times(m.from_int(weights as int), m.from_int(255)),
                    ),
                )
            } else {
                m.from_int(0)
            },
{
    if weights > 0 {
        let largest = A::times(A::from_int(weights), A::from_int(255));
        let inverse = A::over(A::from_int(1), largest);
        A::times(A::from_int(sum), inverse)
    } else {
        A::from_int(0)
    }
}

/// Splits an image into its channels, given the sums of its components.
pub fn split_channels<A: Arithmetic>(rgba: &[u8], sums: &Sums) -> (planes: Planes<A::Num>)
    requires
        rgba@.len() % 4 == 0,
        rgba@.len() <= 4 * MAX_SIDE * MAX_SIDE,
        are_sums(rgba@, rgba@.len() as int / 4, *sums),
    ensures
        planes.l@.len() == rgba@.len() / 4,
        planes.p@.len() == rgba@.len() / 4,
        planes.q@.len() == rgba@.len() / 4,
        planes.a@.len() == rgba@.len() / 4,
        forall|m: Model<A::Num>| #[trigger]
            describes::<A>(m) ==> are_planes(m, rgba@, rgba@.len() as int / 4, planes),
{
    let n = rgba.len() / 4;
    proof {
        lemma_has_alpha(rgba@, n as int);
    }
    let alpha = sums.a < 255 * n as u32;
    let avg_r = divide_sum::<A>(sums.r, sums.a);
    let avg_g = divide_sum::<A>(sums.g, sums.a);
    let avg_b = divide_sum::<A>(sums.b, sums.a);
    let mut l: Vec<A::Num> = Vec::new();
    let mut p: Vec<A::Num> = Vec::new();
    let mut q: Vec<A::Num> = Vec::new();
    let mut a: Vec<A::Num> = Vec::new();
    let mut i: usize = 0;
    while i < n
        invariant
            i <= n,
            n <= 10000,
            4 * n == rgba@.len(),
            alpha == has_alpha(rgba@, n as int),
            forall|m: Model<A::Num>| #[trigger]
                describes::<A>(m) ==> {
                    &&& avg_r == average(m, rgba@, n as int, 0)
                    &&& avg_g == average(m, rgba@, n as int, 1)
                    &&& avg_b == average(m, rgba@, n as int, 2)
                },
            l@.len() == i,
            p@.len() == i,
            q@.len() == i,
            a@.len() == i,
            forall|m: Model<A::Num>, k: int|
                #![trigger describes::<A>(m), pixel_lpqa(m, rgba@, n as int, k)]
                describes::<A>(m) && 0 <= k < i ==> (Lpqa {
                    l: l@[k],
                    p: p@[k],
                    q: q@[k],
                    a: a@[k],
                }) == pixel_lpqa(m, rgba@, n as int, k),
        decreases n - i,
    {
        let red = rgba[4 * i];
        let green = rgba[4 * i + 1];
        let blue = rgba[4 * i + 2];
        let opacity = rgba[4 * i + 3];
        let v = if alpha {
            convert_blended::<A>(avg_r, avg_g, avg_b, red, green, blue, opacity)
        } else {
            convert_opaque::<A>(red, green, blue)
        };
        assert(component(rgba@, i as int, 0) == red);
        assert(component(rgba@, i as int, 1) == green);
        assert(component(rgba@, i as int, 2) == blue);
        assert(component(rgba@, i as int, 3) == opacity);
        assert(forall|m: Model<A::Num>| #[trigger]
            describes::<A>(m) ==> v == pixel_lpqa(m, rgba@, n as int, i as int));
        l.push(v.l);
        p.push(v.p);
        q.push(v.q);
        a.push(v.a);
        i += 1;
    }
    let planes = Planes { l, p, q, a };
    assert forall|m: Model<A::Num>| #[trigger] describes::<A>(m) implies are_planes(
        m,
        rgba@,
        n as int,
        planes,
    ) by {
        assert forall|k: int| 0 <= k < n implies (Lpqa {
            l: l@[k],
            p: p@[k],
            q: q@[k],
            a: a@[k],
        }) == #[trigger] pixel_lpqa(m, rgba@, n as int, k) by {}
        assert(planes.l@ =~= plane_l(m, rgba@, n as int));
        assert(planes.p@ =~= plane_p(m, rgba@, n as int));
        assert(planes.q@ =~= plane_q(m, rgba@, n as int));
        assert(planes.a@ =~= plane_a(m, rgba@, n as int));
    }
    planes
}

/// A colour as parts of the largest value.
pub struct Rgb<N> {
    pub r: N,
    pub g: N,
    pub b: N,
}

/// The colour with a luminance and two chroma values.
pub open spec fn to_rgb<N>(m: Model<N>, l: N, p: N, q: N) -> Rgb<N> {
    let b = m.minus(l, m.times(m.ratio(2, 3), p));
    let r = m.over(m.plus(m.minus(m.times(m.from_int(3), l), b), q), m.from_int(2));
    Rgb { r, g: m.minus(r, q), b }
}

/// `value`, brought into the range from zero to one.
pub open spec fn clamped<N>(m: Model<N>, value: N) -> N {
    m.clamp(value, m.from_int(0), m.from_int(1))
}

/// `value`, brought into the range from zero to one, as a part of 255.
pub open spec fn to_component<N>(m: Model<N>, value: N) -> u8 {
    byte_of(m.truncate(m.times(clamped(m, value), m.from_int(255))))
}

/// Computes the colour with a luminance and two chroma values.
pub fn convert_lpq<A: Arithmetic>(l: A::Num, p: A::Num, q: A::Num) -> (v: Rgb<A::Num>)
    ensures
        forall|m: Model<A::Num>| #[trigger] describes::<A>(m) ==> v == to_rgb(m, l, p, q),
{
    let share = ratio::<A>(2, 3);
    let blue_part = A::times(share, p);
    let b = A::minus(l, blue_part);
    let total = A::times(A::from_int(3), l);
    let rest = A::minus(total, b);
    let twice_r = A::plus(rest, q);
    let r = A::over(twice_r, A::from_int(2));
    let g = A::minus(r, q);
    Rgb { r, g, b }
}

/// Brings `value` into the range from zero to one.
pub fn clamp_unit<A: Arithmetic>(value: A::Num) -> (v: A::Num)
    ensures
        forall|m: Model<A::Num>| #[trigger] describes::<A>(m) ==> v == clamped(m, value),
{
    A::clamp(value, A::from_int(0), A::from_int(1))
}

/// Brings `value` into the range from zero to one and makes it a part of 255.
pub fn component_byte<A: Arithmetic>(value: A::Num) -> (v: u8)
    ensures
        forall|m: Model<A::Num>| #[trigger] describes::<A>(m) ==> v == to_component(m, value),
{
    let part = clamp_unit::<A>(value);
    let scaled = A::times(part, A::from_int(255));
    to_byte(A::truncate(scaled))
}

} // verus!
