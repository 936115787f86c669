//! From an image to its hash.
use crate::arithmetic::{describes, ratio, Arithmetic, Model};
use crate::color::{
    are_planes, has_alpha, lemma_has_alpha, plane_a, plane_l, plane_p, plane_q, split_channels,
    sum_pixels,
};
use crate::forward::{channel_ac, channel_scale, coefficient, encode_channel};
use crate::geometry::{
    lemma_luma_extent, lemma_small_triangles, luma_components, luma_limit, luma_size, max_of,
    triangle, MAX_SIDE,
};
use crate::header::Header;
use crate::parts::{layout, Parts};
use crate::saturate::{byte_of, short_of, to_byte, to_short};
use vstd::prelude::*;

verus! {

/// `value` on a scale from zero to `steps`.
pub open spec fn quantized<N>(m: Model<N>, value: N, steps: int) -> u32 {
    m.round(m.times(m.from_int(steps), value))
}

/// `value`, which lies between minus one and one, on a scale from zero to 63.
pub open spec fn quantized_signed<N>(m: Model<N>, value: N) -> u32 {
    m.round(m.plus(m.ratio(63, 2), m.times(m.ratio(63, 2), value)))
}

/// The nibbles of the coefficients `ac`.
pub open spec fn quantized_ac<N>(m: Model<N>, ac: Seq<N>) -> Seq<u8> {
    Seq::new(ac.len(), |i: int| byte_of(quantized(m, ac[i], 15)))
}

/// The numbers of luminance components of an image that take part in the transform.
pub open spec fn used_luma(w: int, h: int, alpha: bool) -> (int, int) {
    (max_of(3, luma_size(w, h, alpha).0), max_of(3, luma_size(w, h, alpha).1))
}

/// The number of luminance components along the shorter side of an image.
pub open spec fn short_extent(w: int, h: int, alpha: bool) -> int {
    if w > h {
        luma_size(w, h, alpha).1
    } else {
        luma_size(w, h, alpha).0
    }
}

/// The header of the hash of an image.
pub open spec fn encoded_header<N>(m: Model<N>, w: int, h: int, rgba: Seq<u8>) -> Header {
    let n = w * h;
    let alpha = has_alpha(rgba, n);
    let (nx, ny) = used_luma(w, h, alpha);
    Header {
        l_dc: quantized(m, coefficient(m, plane_l(m, rgba, n), w, h, 0, 0), 63),
        p_dc: quantized_signed(m, coefficient(m, plane_p(m, rgba, n), w, h, 0, 0)),
        q_dc: quantized_signed(m, coefficient(m, plane_q(m, rgba, n), w, h, 0, 0)),
        l_scale: quantized(m, channel_scale(m, plane_l(m, rgba, n), w, h, nx, ny), 31),
        has_alpha: alpha,
        extent: short_extent(w, h, alpha) as u16,
        p_scale: short_of(
            quantized(m, channel_scale(m, plane_p(m, rgba, n), w, h, 3, 3), 63),
        ),
        q_scale: short_of(
            quantized(m, channel_scale(m, plane_q(m, rgba, n), w, h, 3, 3), 63),
        ),
        is_landscape: w > h,
    }
}

/// The average and the scale of the alpha channel in the hash of an image.
pub open spec fn encoded_alpha<N>(m: Model<N>, w: int, h: int, rgba: Seq<u8>) -> Option<
    (u8, u8),
> {
    let n = w * h;
    if has_alpha(rgba, n) {
        Some(
            (
                byte_of(quantized(m, coefficient(m, plane_a(m, rgba, n), w, h, 0, 0), 15)),
                byte_of(quantized(m, channel_scale(m, plane_a(m, rgba, n), w, h, 5, 5), 15)),
            ),
        )
    } else {
        None
    }
}

/// The nibbles in the hash of an image.
pub open spec fn encoded_nibbles<N>(m: Model<N>, w: int, h: int, rgba: Seq<u8>) -> Seq<u8> {
    let n = w * h;
    let alpha = has_alpha(rgba, n);
    let (nx, ny) = used_luma(w, h, alpha);
    quantized_ac(m, channel_ac(m, plane_l(m, rgba, n), w, h, nx, ny)) + quantized_ac(
        m,
        channel_ac(m, plane_p(m, rgba, n), w, h, 3, 3),
    ) + quantized_ac(m, channel_ac(m, plane_q(m, rgba, n), w, h, 3, 3)) + if alpha {
        quantized_ac(m, channel_ac(m, plane_a(m, rgba, n), w, h, 5, 5))
    } else {
        Seq::empty()
    }
}

/// The hash of an image.
pub open spec fn thumb_hash<N>(m: Model<N>, w: int, h: int, rgba: Seq<u8>) -> Seq<u8> {
    layout(
        encoded_header(m, w, h, rgba),
        encoded_alpha(m, w, h, rgba),
        encoded_nibbles(m, w, h, rgba),
    )
}

/// The number of nibbles in the hash of an image.
pub open spec fn encoded_count(w: int, h: int, alpha: bool) -> int {
    triangle(used_luma(w, h, alpha).0, used_luma(w, h, alpha).1).len() - 1 + if alpha {
        24
    } else {
        10int
    }
}

/// The number of bytes in the hash of an image.
pub open spec fn encoded_len(w: int, h: int, alpha: bool) -> int {
    (if alpha {
        6
    } else {
        5int
    }) + (encoded_count(w, h, alpha) + 1) / 2
}

/// Brings `value` to a scale from zero to `steps`.
fn quantize<A: Arithmetic>(value: A::Num, steps: u32) -> (r: u32)
    ensures
        forall|m: Model<A::Num>| #[trigger]
            describes::<A>(m) ==> r == quantized(m, value, steps as int),
{
    let scaled = A::times(A::from_int(steps), value);
    A::round(scaled)
}

/// Brings `value` from a scale from minus one to one to a scale from zero to 63.
fn quantize_signed<A: Arithmetic>(value: A::Num) -> (r: u32)
    ensures
        forall|m: Model<A::Num>| #[trigger]
            describes::<A>(m) ==> r == quantized_signed(m, value),
{
    let half = ratio::<A>(63, 2);
    let scaled = A::times(half, value);
    let shifted = A::plus(half, scaled);
    A::round(shifted)
}

/// Appends the nibbles of the coefficients `ac` to `out`.
fn quantize_ac<A: Arithmetic>(ac: &Vec<A::Num>, out: &mut Vec<u8>)
    ensures
        final(out)@.len() == old(out)@.len() + ac@.len(),
        forall|m: Model<A::Num>| #[trigger]
            describes::<A>(m) ==> final(out)@ == old(out)@ + quantized_ac(m, ac@),
{
    let ghost before = out@;
    let mut i: usize = 0;
    while i < ac.len()
        invariant
            i <= ac@.len(),
            out@.len() == before.len() + i,
            forall|m: Model<A::Num>| #[trigger]
                describes::<A>(m) ==> out@ == before + quantized_ac(m, ac@).take(i as int),
        decreases ac@.len() - i,
    {
        let value = quantize::<A>(ac[i], 15);
        let ghost prior = out@;
        out.push(to_byte(value));
        assert forall|m: Model<A::Num>| #[trigger] describes::<A>(m) implies out@ == before
            + quantized_ac(m, ac@).take(i + 1) by {
            assert(prior == before + quantized_ac(m, ac@).take(i as int));
        }
        i += 1;
    }
    assert forall|m: Model<A::Num>| #[trigger] describes::<A>(m) implies out@ == before
        + quantized_ac(m, ac@) by {
        assert(quantized_ac(m, ac@).take(i as int) == quantized_ac(m, ac@));
    }
}

/// Whether `hash` has the layout of the hash of a `w` by `h` image: the bytes of some header,
/// alpha byte and nibbles, of which the header records the image's transparency, orientation
/// and proportions, and of which there are as many as such an image has.
pub open spec fn is_hash_of_size(hash: Seq<u8>, w: int, h: int, alpha: bool) -> bool {
    exists|header: Header, alpha_byte: Option<(u8, u8)>, nibbles: Seq<u8>|
        {
            &&& hash == #[trigger] layout(header, alpha_byte, nibbles)
            &&& header.has_alpha == alpha
            &&& header.is_landscape == (w > h)
            &&& header.extent == short_extent(w, h, alpha)
            &&& alpha_byte is Some == alpha
            &&& nibbles.len() == encoded_count(w, h, alpha)
        }
}

/// Encodes an image of `w` by `h` pixels, given row by row as red, green, blue and alpha, to
/// its hash.
pub fn rgba_to_thumb_hash<A: Arithmetic>(w: usize, h: usize, rgba: &[u8]) -> (hash: Vec<u8>)
    requires
        w <= MAX_SIDE,
        h <= MAX_SIDE,
        rgba@.len() == w * h * 4,
    ensures
        hash@.len() == encoded_len(w as int, h as int, has_alpha(rgba@, w * h)),
        is_hash_of_size(hash@, w as int, h as int, has_alpha(rgba@, w * h)),
        forall|m: Model<A::Num>| #[trigger]
            describes::<A>(m) ==> hash@ == thumb_hash(m, w as int, h as int, rgba@),
{
    assert(w * h <= 10000) by (nonlinear_arith)
        requires
            w <= 100,
            h <= 100,
    ;
    let n = w * h;
    let sums = sum_pixels(rgba);
    let alpha = sums.a < 255 * n as u32;
    let (lx, ly) = luma_components(w, h, alpha);
    proof {
        lemma_has_alpha(rgba@, n as int);
        let longest = max_of(w as int, h as int);
        lemma_luma_extent(luma_limit(alpha), w as int, longest);
        lemma_luma_extent(luma_limit(alpha), h as int, longest);
        lemma_small_triangles();
    }
    let nx: usize = if lx > 3 {
        lx
    } else {
        3
    };
    let ny: usize = if ly > 3 {
        ly
    } else {
        3
    };
    assert(nx * w <= 700 && ny * h <= 700 && ny * w <= 700 && nx * ny <= 49) by (nonlinear_arith)
        requires
            nx <= 7,
            ny <= 7,
            w <= 100,
            h <= 100,
    ;
    let planes = split_channels::<A>(rgba, &sums);
    let l = encode_channel::<A>(planes.l.as_slice(), w, h, nx, ny);
    let p = encode_channel::<A>(planes.p.as_slice(), w, h, 3, 3);
    let q = encode_channel::<A>(planes.q.as_slice(), w, h, 3, 3);
    let is_landscape = w > h;
    let header = Header {
        l_dc: quantize::<A>(l.dc, 63),
        p_dc: quantize_signed::<A>(p.dc),
        q_dc: quantize_signed::<A>(q.dc),
        l_scale: quantize::<A>(l.scale, 31),
        has_alpha: alpha,
        extent: (if is_landscape {
            ly
        } else {
            lx
        }) as u16,
        p_scale: to_short(quantize::<A>(p.scale, 63)),
        q_scale: to_short(quantize::<A>(q.scale, 63)),
        is_landscape,
    };
    let mut nibbles: Vec<u8> = Vec::new();
    quantize_ac::<A>(&l.ac, &mut nibbles);
    quantize_ac::<A>(&p.ac, &mut nibbles);
    quantize_ac::<A>(&q.ac, &mut nibbles);
    let mut alpha_byte: Option<(u8, u8)> = None;
    if alpha {
        let a = encode_channel::<A>(planes.a.as_slice(), w, h, 5, 5);
        alpha_byte = Some((to_byte(quantize::<A>(a.dc, 15)), to_byte(quantize::<A>(a.scale, 15))));
        quantize_ac::<A>(&a.ac, &mut nibbles);
    }
    let parts = Parts { header, alpha: alpha_byte, nibbles };
    let hash = parts.to_bytes();
    assert forall|m: Model<A::Num>| #[trigger] describes::<A>(m) implies hash@ == thumb_hash(
        m,
        w as int,
        h as int,
        rgba@,
    ) by {
        assert(are_planes(m, rgba@, n as int, planes));
        assert(header == encoded_header(m, w as int, h as int, rgba@));
        assert(alpha_byte == encoded_alpha(m, w as int, h as int, rgba@));
        assert(parts.nibbles@ == encoded_nibbles(m, w as int, h as int, rgba@));
    }
    hash
}

} // verus!
