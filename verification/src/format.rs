//! The bytes of a hash, one by one: what each of them holds, how many there are, and what
//! they say of the image.
use crate::arithmetic::Model;
use crate::decoder::{aspect_ratio, size_of_hash};
use crate::encoder::{encoded_count, encoded_len, is_hash_of_size, short_extent, used_luma};
use crate::geometry::{
    decoded_size, lemma_luma_extent, lemma_small_triangles, lemma_triangle_first, luma_extent,
    luma_limit, luma_size, max_of, nearest, nearest_is_closest, triangle,
};
use crate::header::{header_of, header_round_trip, word16, word24, Header};
use crate::laws::{
    coefficients_are_in_order, coefficients_are_those_below_the_diagonal, comes_before,
};
use crate::nibbles::{packed, unpacked};
use crate::parts::{
    alpha_count, alpha_of, chroma_count, has_averages, is_complete, layout, luma_count,
    nibble_count, nibbles_of,
};
use crate::saturate::{byte_of, short_of};
use vstd::prelude::*;

verus! {

/// The first three bytes of a hash are a number whose digits, in the bases 64, 64, 64, 32 and 2,
/// are the averages, the luminance scale and whether there is an alpha channel; the next two are
/// one whose digits, in the bases 8, 64, 64 and 2, are the components along the shorter side, the
/// chroma scales and whether the image is wider than high.
pub proof fn header_fields_are_digits(hash: Seq<u8>)
    requires
        hash.len() >= 5,
    ensures
        ({
            let header = header_of(hash);
            &&& header.l_dc < 64 && header.p_dc < 64 && header.q_dc < 64 && header.l_scale < 32
            &&& header.extent < 8 && header.p_scale < 64 && header.q_scale < 64
            &&& hash[0] + 256 * hash[1] + 65536 * hash[2] == header.l_dc + 64 * header.p_dc + 4096
                * header.q_dc + 262144 * header.l_scale + if header.has_alpha {
                8388608
            } else {
                0int
            }
            &&& hash[3] + 256 * hash[4] == header.extent + 8 * header.p_scale + 512
                * header.q_scale + if header.is_landscape {
                32768
            } else {
                0int
            }
        }),
{
    let low = hash[0] + 256 * hash[1] + 65536 * hash[2];
    let high = hash[3] + 256 * hash[4];
    assert(word24(hash) == low);
    assert(word16(hash) == high);
    assert(low / 8388608 == 0 || low / 8388608 == 1);
    assert(high / 32768 == 0 || high / 32768 == 1);
    assert(low == low % 64 + 64 * (low / 64));
    assert(low / 64 == low / 64 % 64 + 64 * (low / 4096));
    assert(low / 4096 == low / 4096 % 64 + 64 * (low / 262144));
    assert(low / 262144 == low / 262144 % 32 + 32 * (low / 8388608));
    assert(high == high % 8 + 8 * (high / 8));
    assert(high / 8 == high / 8 % 64 + 64 * (high / 512));
    assert(high / 512 == high / 512 % 64 + 64 * (high / 32768));
}

/// A header whose fields are small enough is laid out in five bytes that hold its fields as
/// the digits of two numbers.
pub proof fn header_bytes_are_digits(header: Header)
    requires
        header.l_dc < 64,
        header.p_dc < 64,
        header.q_dc < 64,
        header.l_scale < 32,
        header.extent < 8,
        header.p_scale < 64,
        header.q_scale < 64,
    ensures
        ({
            let bytes = header.bytes();
            &&& bytes.len() == 5
            &&& bytes[0] + 256 * bytes[1] + 65536 * bytes[2] == header.l_dc + 64 * header.p_dc
                + 4096 * header.q_dc + 262144 * header.l_scale + if header.has_alpha {
                8388608
            } else {
                0int
            }
            &&& bytes[3] + 256 * bytes[4] == header.extent + 8 * header.p_scale + 512
                * header.q_scale + if header.is_landscape {
                32768
            } else {
                0int
            }
        }),
{
    let bytes = header.bytes();
    header_round_trip(header, Seq::empty());
    assert(bytes + Seq::<u8>::empty() =~= bytes);
    header_fields_are_digits(bytes);
}

/// Every header is laid out in five bytes, those of two numbers from the low bits up. The fields
/// lie in the bits of these numbers from 0, 6, 12, 18 and 23 on, and from 0, 3, 9 and 15 on; the
/// bits that are too many for a field are laid over those of the fields above it.
pub proof fn header_bytes_are_bits(header: Header, low: u32, high: u16)
    requires
        low == header.l_dc | (header.p_dc << 6) | (header.q_dc << 12) | (header.l_scale << 18) | (
        if header.has_alpha {
            1u32 << 23
        } else {
            0
        }),
        high == header.extent | (header.p_scale << 3) | (header.q_scale << 9) | (
        if header.is_landscape {
            1u16 << 15
        } else {
            0
        }),
    ensures
        header.bytes().len() == 5,
        header.bytes()[0] + 256 * header.bytes()[1] + 65536 * header.bytes()[2] == low % 16777216,
        header.bytes()[3] + 256 * header.bytes()[4] == high,
{
    assert(1u32 << 23 == 8388608u32) by (bit_vector);
    assert(1u16 << 15 == 32768u16) by (bit_vector);
    assert((low & 255) as u8 + 256 * (((low >> 8) & 255) as u8) + 65536 * (((low >> 16)
        & 255) as u8) == low % 16777216) by (bit_vector);
    assert((high & 255) as u8 + 256 * ((high >> 8) as u8) == high) by (bit_vector);
}

/// Whatever its fields are, the number of components along the shorter side is in the lowest
/// three bits of the fourth byte of a header, where it is below eight, and the highest bits of the
/// third and the fifth byte are set where there is an alpha channel and where the image is wider
/// than high.
pub proof fn header_shape_is_kept(header: Header)
    requires
        header.extent < 8,
    ensures
        header.bytes()[3] % 8 == header.extent,
        header.has_alpha ==> header.bytes()[2] >= 128,
        header.is_landscape ==> header.bytes()[4] >= 128,
{
    let (l, p, q, s) = (header.l_dc, header.p_dc, header.q_dc, header.l_scale);
    let (e, x, y) = (header.extent, header.p_scale, header.q_scale);
    assert(((l | (p << 6) | (q << 12) | (s << 18) | 8388608u32) >> 16) & 255 >= 128)
        by (bit_vector);
    assert((e | (x << 3) | (y << 9) | 32768u16) >> 8 >= 128) by (bit_vector);
    assert(((e | (x << 3) | (y << 9) | 32768u16) & 255) % 8 == e) by (bit_vector)
        requires
            e < 8,
    ;
    assert(((e | (x << 3) | (y << 9) | 0u16) & 255) % 8 == e) by (bit_vector)
        requires
            e < 8,
    ;
    let (low, high) = (header.low_word(), header.high_word());
    assert((low >> 16) & 255 < 256 && high & 255 < 256 && high >> 8 < 256) by (bit_vector);
}

/// The recorded numbers of components along the width and the height: five or seven along the
/// longer side, as there is an alpha channel or not, and what the header records along the other.
pub proof fn longer_side_has_the_limit(header: Header)
    ensures
        header.is_landscape ==> header.aspect().1 == header.extent,
        !header.is_landscape ==> header.aspect().0 == header.extent,
        header.is_landscape && header.has_alpha ==> header.aspect().0 == 5,
        header.is_landscape && !header.has_alpha ==> header.aspect().0 == 7,
        !header.is_landscape && header.has_alpha ==> header.aspect().1 == 5,
        !header.is_landscape && !header.has_alpha ==> header.aspect().1 == 7,
{
}

/// The used numbers of components are the recorded ones, but at least three.
pub proof fn at_least_three_are_used(header: Header)
    ensures
        header.components().0 >= 3 && header.components().0 >= header.aspect().0,
        header.components().1 >= 3 && header.components().1 >= header.aspect().1,
        header.components().0 == 3 || header.components().0 == header.aspect().0,
        header.components().1 == 3 || header.components().1 == header.aspect().1,
{
}

/// The recorded numbers of components and the flags of a hash, read from its bytes.
pub proof fn recorded_components_are_in_bytes(hash: Seq<u8>)
    requires
        hash.len() >= 5,
    ensures
        header_of(hash).has_alpha <==> hash[2] >= 128,
        header_of(hash).is_landscape <==> hash[4] >= 128,
        header_of(hash).extent == hash[3] % 8,
        hash[2] < 128 && hash[4] < 128 ==> header_of(hash).aspect() == (
            (hash[3] % 8) as int,
            7int,
        ),
        hash[2] < 128 && hash[4] >= 128 ==> header_of(hash).aspect() == (
            7int,
            (hash[3] % 8) as int,
        ),
        hash[2] >= 128 && hash[4] < 128 ==> header_of(hash).aspect() == (
            (hash[3] % 8) as int,
            5int,
        ),
        hash[2] >= 128 && hash[4] >= 128 ==> header_of(hash).aspect() == (
            5int,
            (hash[3] % 8) as int,
        ),
{
    assert(word16(hash) % 8 == hash[3] % 8);
}

/// Where `lx` by `ly` components are recorded, the longer side of the preview has 32 pixels, and
/// no whole number is closer to its proportion of that than the length of the shorter side, nor
/// as close and larger.
pub proof fn preview_keeps_the_proportions(lx: int, ly: int)
    requires
        0 <= lx,
        0 <= ly,
        lx > 0 || ly > 0,
    ensures
        ({
            let (w, h) = decoded_size(lx, ly);
            &&& lx >= ly ==> w == 32
            &&& ly >= lx ==> h == 32
            &&& lx >= ly ==> 2 * (32 * ly) - lx < 2 * (h * lx) <= 2 * (32 * ly) + lx
            &&& ly >= lx ==> 2 * (32 * lx) - ly < 2 * (w * ly) <= 2 * (32 * lx) + ly
        }),
{
    if lx > ly {
        nearest_is_closest(32 * ly, lx);
    } else {
        nearest_is_closest(32 * lx, ly);
        if lx == ly {
            let w = decoded_size(lx, ly).0;
            assert(w == 32) by (nonlinear_arith)
                requires
                    2 * (32 * lx) - lx < 2 * (w * lx) <= 2 * (32 * lx) + lx,
                    lx > 0,
            ;
        }
    }
}

/// The size of the preview of a hash, from the bits of its bytes alone: whatever its averages,
/// its scales and its coefficients are, its longer side has 32 pixels, and its shorter side has
/// the closest whole number of pixels to its proportion of that.
pub proof fn preview_size_follows_from_recorded_components(hash: Seq<u8>, lx: int, ly: int)
    requires
        hash.len() >= 5,
        hash[2] < 128 && hash[4] < 128 ==> lx == hash[3] % 8 && ly == 7,
        hash[2] < 128 && hash[4] >= 128 ==> lx == 7 && ly == hash[3] % 8,
        hash[2] >= 128 && hash[4] < 128 ==> lx == hash[3] % 8 && ly == 5,
        hash[2] >= 128 && hash[4] >= 128 ==> lx == 5 && ly == hash[3] % 8,
    ensures
        ({
            let (w, h) = size_of_hash(hash);
            &&& lx >= ly ==> w == 32
            &&& ly >= lx ==> h == 32
            &&& lx >= ly ==> 2 * (32 * ly) - lx < 2 * (h * lx) <= 2 * (32 * ly) + lx
            &&& ly >= lx ==> 2 * (32 * lx) - ly < 2 * (w * ly) <= 2 * (32 * lx) + ly
        }),
{
    recorded_components_are_in_bytes(hash);
    preview_keeps_the_proportions(lx, ly);
}

/// Two hashes that record the same numbers of components have previews of the same size.
pub proof fn preview_size_depends_on_components(hash: Seq<u8>, other: Seq<u8>)
    requires
        hash.len() >= 5,
        other.len() >= 5,
        hash[2] / 128 == other[2] / 128,
        hash[3] % 8 == other[3] % 8,
        hash[4] / 128 == other[4] / 128,
    ensures
        size_of_hash(hash) == size_of_hash(other),
{
    recorded_components_are_in_bytes(hash);
    recorded_components_are_in_bytes(other);
}

/// The aspect ratio that is read from a hash is the quotient of the numbers of components that
/// its bytes record, in every arithmetic.
pub proof fn aspect_ratio_is_of_recorded_components<N>(
    m: Model<N>,
    hash: Seq<u8>,
    lx: int,
    ly: int,
)
    requires
        hash.len() >= 5,
        hash[2] < 128 && hash[4] < 128 ==> lx == hash[3] % 8 && ly == 7,
        hash[2] < 128 && hash[4] >= 128 ==> lx == 7 && ly == hash[3] % 8,
        hash[2] >= 128 && hash[4] < 128 ==> lx == hash[3] % 8 && ly == 5,
        hash[2] >= 128 && hash[4] >= 128 ==> lx == 5 && ly == hash[3] % 8,
    ensures
        header_of(hash).aspect() == (lx, ly),
        aspect_ratio(m, hash) == m.over(m.from_int(lx), m.from_int(ly)),
{
    recorded_components_are_in_bytes(hash);
}

/// A side of an image gets its proportion of five or seven luminance components, as the image
/// has an alpha channel or not: the closest whole number, of two the larger, and at least one.
/// An image that is empty on both sides gets one along each.
pub proof fn components_are_in_proportion(w: int, h: int, alpha: bool)
    requires
        0 <= w,
        0 <= h,
    ensures
        ({
            let (lx, ly) = luma_size(w, h, alpha);
            let limit: int = if alpha {
                5
            } else {
                7
            };
            &&& lx >= 1 && ly >= 1
            &&& w >= h && w > 0 ==> {
                &&& lx == limit
                &&& 2 * (limit * h) - w < 2 * (ly * w)
                &&& ly > 1 ==> 2 * (ly * w) <= 2 * (limit * h) + w
            }
            &&& h >= w && h > 0 ==> {
                &&& ly == limit
                &&& 2 * (limit * w) - h < 2 * (lx * h)
                &&& lx > 1 ==> 2 * (lx * h) <= 2 * (limit * w) + h
            }
            &&& w == 0 && h == 0 ==> lx == 1 && ly == 1
            &&& used_luma(w, h, alpha).0 == if lx > 3 {
                lx
            } else {
                3
            }
            &&& used_luma(w, h, alpha).1 == if ly > 3 {
                ly
            } else {
                3
            }
            &&& short_extent(w, h, alpha) == if w > h {
                ly
            } else {
                lx
            }
        }),
{
    let limit: int = if alpha {
        5
    } else {
        7
    };
    let longest = if w >= h {
        w
    } else {
        h
    };
    lemma_luma_extent(limit, w, longest);
    lemma_luma_extent(limit, h, longest);
    if longest > 0 {
        lemma_extent_is_closest(limit, w, longest);
        lemma_extent_is_closest(limit, h, longest);
    }
}

/// The number of components along a side is the closest whole number to its proportion, but at
/// least one.
proof fn lemma_extent_is_closest(limit: int, side: int, longest: int)
    requires
        0 < longest,
    ensures
        ({
            let r = luma_extent(limit, side, longest);
            &&& 2 * (limit * side) - longest < 2 * (r * longest)
            &&& r > 1 ==> 2 * (r * longest) <= 2 * (limit * side) + longest
        }),
{
    let r = nearest(limit * side, longest);
    nearest_is_closest(limit * side, longest);
    if r <= 1 {
        assert(r * longest <= 1 * longest) by (nonlinear_arith)
            requires
                r <= 1,
                0 < longest,
        ;
    }
}

/// The coefficients of a channel are determined by which they are and that they are in order: a
/// list that holds just the pairs of frequencies below the diagonal, by the vertical frequency
/// first and then by the horizontal one, is the list of the format.
pub proof fn order_of_coefficients(nx: int, ny: int, list: Seq<(usize, usize)>)
    requires
        0 <= nx <= usize::MAX,
        0 <= ny <= usize::MAX,
        forall|cx: usize, cy: usize| #[trigger]
            list.contains((cx, cy)) <==> cy < ny && cx * ny < nx * (ny - cy),
        forall|i: int, j: int|
            0 <= i < j < list.len() ==> {
                ||| (#[trigger] list[i]).1 < (#[trigger] list[j]).1
                ||| list[i].1 == list[j].1 && list[i].0 < list[j].0
            },
    ensures
        list == triangle(nx, ny),
{
    let all = triangle(nx, ny);
    assert forall|i: int, j: int| 0 <= i < j < all.len() implies #[trigger] comes_before(
        all[i],
        all[j],
    ) by {
        coefficients_are_in_order(nx, ny, i, j);
    }
    assert forall|i: int, j: int| 0 <= i < j < list.len() implies #[trigger] comes_before(
        list[i],
        list[j],
    ) by {}
    assert forall|i: int| 0 <= i < list.len() implies #[trigger] all.contains(list[i]) by {
        assert(list.contains((list[i].0, list[i].1)));
        coefficients_are_those_below_the_diagonal(nx, ny, list[i].0, list[i].1);
    }
    assert forall|i: int| 0 <= i < all.len() implies #[trigger] list.contains(all[i]) by {
        assert(all.contains((all[i].0, all[i].1)));
        coefficients_are_those_below_the_diagonal(nx, ny, all[i].0, all[i].1);
    }
    lemma_ordered_lists(list, all, list.len() as int);
    lemma_ordered_lists(all, list, all.len() as int);
    assert(list =~= all);
}

/// The first `n` entries of an ordered list are those of another that holds them all, and no
/// others: each has as many before it in the one as in the other.
proof fn lemma_ordered_lists(a: Seq<(usize, usize)>, b: Seq<(usize, usize)>, n: int)
    requires
        0 <= n <= a.len(),
        forall|i: int, j: int| 0 <= i < j < a.len() ==> #[trigger] comes_before(a[i], a[j]),
        forall|i: int, j: int| 0 <= i < j < b.len() ==> #[trigger] comes_before(b[i], b[j]),
        forall|i: int| 0 <= i < a.len() ==> #[trigger] b.contains(a[i]),
        forall|i: int| 0 <= i < b.len() ==> #[trigger] a.contains(b[i]),
    ensures
        n <= b.len(),
        forall|i: int| 0 <= i < n ==> #[trigger] a[i] == b[i],
    decreases n,
{
    if n > 0 {
        let k = n - 1;
        lemma_ordered_lists(a, b, k);
        assert(b.contains(a[k]));
        let j = choose|j: int| 0 <= j < b.len() && b[j] == a[k];
        if j < k {
            assert(a[j] == b[j]);
            assert(comes_before(a[j], a[k]));
        }
        assert(k < b.len());
        assert(a.contains(b[k]));
        let i = choose|i: int| 0 <= i < a.len() && a[i] == b[k];
        if i < k {
            assert(a[i] == b[i]);
            assert(comes_before(b[i], b[k]));
        } else if i > k && j > k {
            assert(comes_before(a[k], a[i]));
            assert(comes_before(b[k], b[j]));
        }
    }
}

/// The numbers of coefficients of the channels: those below the diagonal, less the average.
pub proof fn coefficients_are_counted(header: Header)
    ensures
        luma_count(header) + 1 == triangle(header.components().0, header.components().1).len(),
        chroma_count() == 5,
        alpha_count() == 14,
        header.has_alpha ==> nibble_count(header) == luma_count(header) + 24,
        !header.has_alpha ==> nibble_count(header) == luma_count(header) + 10,
{
    lemma_small_triangles();
}

/// A hash is long enough for its averages where it has five bytes, and six where the highest bit
/// of the third is set. It is complete where, besides, two nibbles to a byte, there is one for
/// each luminance coefficient, five for each of the two chroma channels and fourteen for the alpha
/// channel, where there is one.
pub proof fn complete_hashes_hold_all_nibbles(hash: Seq<u8>)
    ensures
        has_averages(hash) <==> hash.len() >= 5 && (hash[2] >= 128 ==> hash.len() >= 6),
        is_complete(hash) <==> has_averages(hash) && ({
            let (nx, ny) = header_of(hash).components();
            let luma = triangle(nx, ny).len() - 1;
            &&& hash[2] < 128 ==> luma + 10 <= 2 * (hash.len() - 5)
            &&& hash[2] >= 128 ==> luma + 24 <= 2 * (hash.len() - 6)
        }),
        is_complete(hash) ==> nibbles_of(hash).len() == nibble_count(header_of(hash)),
        hash.len() >= 5 && hash[2] < 128 ==> alpha_of(hash) is None,
        hash.len() >= 5 && hash[2] >= 128 ==> ({
            &&& alpha_of(hash) matches Some((dc, scale)) && dc < 16 && dc + 16 * scale == hash[5]
        }),
{
    let (nx, ny) = header_of(hash).components();
    lemma_small_triangles();
    lemma_triangle_first(nx, ny);
    if hash.len() >= 5 {
        recorded_components_are_in_bytes(hash);
    }
}

/// The nibbles of a complete hash are the halves of the bytes after the header and the alpha
/// byte, the lower one of each first.
pub proof fn nibbles_are_half_bytes(hash: Seq<u8>, start: int, j: int)
    requires
        is_complete(hash),
        hash[2] < 128 ==> start == 5,
        hash[2] >= 128 ==> start == 6,
        0 <= j < nibbles_of(hash).len(),
    ensures
        start + j / 2 < hash.len(),
        j % 2 == 0 ==> nibbles_of(hash)[j] == hash[start + j / 2] % 16,
        j % 2 == 1 ==> nibbles_of(hash)[j] == hash[start + j / 2] / 16,
{
    let (nx, ny) = header_of(hash).components();
    recorded_components_are_in_bytes(hash);
    lemma_small_triangles();
    lemma_triangle_first(nx, ny);
}

/// Packed nibbles are read from the halves of the bytes, the lower one of each first, and packed
/// two to a byte, where the last one may be on its own.
pub proof fn two_nibbles_to_a_byte(nibbles: Seq<u8>, data: Seq<u8>, n: int)
    requires
        0 <= n,
    ensures
        unpacked(data, n).len() == n,
        forall|j: int|
            0 <= j < n ==> #[trigger] unpacked(data, n)[j] == if j % 2 == 0 {
                data[j / 2] % 16
            } else {
                data[j / 2] / 16
            },
        nibbles.len() <= 2 * packed(nibbles).len() <= nibbles.len() + 1,
        forall|i: int|
            0 <= i && 2 * i + 1 < nibbles.len() ==> #[trigger] packed(nibbles)[i] == nibbles[2 * i]
                | (nibbles[2 * i + 1] << 4),
        forall|i: int|
            0 <= i && 2 * i + 1 < nibbles.len() && nibbles[2 * i] < 16 && nibbles[2 * i + 1] < 16
                ==> #[trigger] packed(nibbles)[i] == nibbles[2 * i] + 16 * nibbles[2 * i + 1],
        nibbles.len() % 2 == 1 ==> packed(nibbles).last() == nibbles.last(),
{
    assert forall|i: int|
        0 <= i && 2 * i + 1 < nibbles.len() && nibbles[2 * i] < 16 && nibbles[2 * i + 1]
            < 16 implies #[trigger] packed(nibbles)[i] == nibbles[2 * i] + 16 * nibbles[2 * i
        + 1] by {
        lemma_two_halves(nibbles[2 * i], nibbles[2 * i + 1]);
    }
}

proof fn lemma_two_halves(lo: u8, hi: u8)
    by (bit_vector)
    requires
        lo < 16,
        hi < 16,
    ensures
        lo | (hi << 4) == lo + 16 * hi,
{
}

/// A hash is laid out in its header, the byte of the alpha channel, where there is one, with its
/// average in the lower half and its scale in the upper one, and its packed nibbles.
pub proof fn parts_lie_one_after_the_other(
    header: Header,
    alpha: Option<(u8, u8)>,
    nibbles: Seq<u8>,
    start: int,
)
    requires
        alpha is Some ==> start == 6,
        alpha is None ==> start == 5,
    ensures
        ({
            let hash = layout(header, alpha, nibbles);
            &&& hash.len() == start + packed(nibbles).len()
            &&& forall|i: int| 0 <= i < 5 ==> hash[i] == #[trigger] header.bytes()[i]
            &&& alpha matches Some((dc, scale)) ==> {
                &&& hash[5] == dc | (scale << 4)
                &&& dc < 16 && scale < 16 ==> hash[5] == dc + 16 * scale
            }
            &&& forall|i: int|
                0 <= i < packed(nibbles).len() ==> hash[start + i] == #[trigger] packed(nibbles)[i]
        }),
{
    if let Some((dc, scale)) = alpha {
        if dc < 16 && scale < 16 {
            lemma_two_halves(dc, scale);
        }
    }
}

/// The hash of a `w` by `h` image, in every arithmetic: how many bytes it has, and that its
/// fourth byte records the number of components along the shorter side, and the highest bits of
/// its third and fifth bytes that there is an alpha channel and that the image is wider than high.
pub proof fn shape_of_a_hash(hash: Seq<u8>, w: int, h: int, alpha: bool)
    requires
        0 <= w,
        0 <= h,
        is_hash_of_size(hash, w, h, alpha),
    ensures
        hash[3] % 8 == short_extent(w, h, alpha),
        alpha ==> hash[2] >= 128,
        w > h ==> hash[4] >= 128,
        hash.len() == encoded_len(w, h, alpha),
        ({
            let (nx, ny) = used_luma(w, h, alpha);
            let luma = triangle(nx, ny).len() - 1;
            &&& alpha ==> luma + 24 <= 2 * (hash.len() - 6) <= luma + 25
            &&& !alpha ==> luma + 10 <= 2 * (hash.len() - 5) <= luma + 11
        }),
{
    let (header, alpha_byte, nibbles) = choose|
        header: Header,
        alpha_byte: Option<(u8, u8)>,
        nibbles: Seq<u8>,
    |
        {
            &&& hash == #[trigger] layout(header, alpha_byte, nibbles)
            &&& header.has_alpha == alpha
            &&& header.is_landscape == (w > h)
            &&& header.extent == short_extent(w, h, alpha)
            &&& alpha_byte is Some == alpha
            &&& nibbles.len() == encoded_count(w, h, alpha)
        };
    let limit = luma_limit(alpha);
    lemma_luma_extent(limit, w, max_of(w, h));
    lemma_luma_extent(limit, h, max_of(w, h));
    header_shape_is_kept(header);
    let start: int = if alpha {
        6
    } else {
        5
    };
    parts_lie_one_after_the_other(header, alpha_byte, nibbles, start);
    assert(hash[2] == header.bytes()[2]);
    assert(hash[3] == header.bytes()[3]);
    assert(hash[4] == header.bytes()[4]);
    two_nibbles_to_a_byte(nibbles, hash, 0);
}

/// Numbers that are too large for one or two bytes become the largest that fit, and no others
/// are changed.
pub proof fn large_numbers_become_the_largest(n: u32)
    ensures
        n <= 255 ==> byte_of(n) == n,
        n >= 255 ==> byte_of(n) == 255,
        n <= 65535 ==> short_of(n) == n,
        n >= 65535 ==> short_of(n) == 65535,
{
}

} // verus!
