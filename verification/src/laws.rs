//! What holds of encoding and decoding together, in every arithmetic.
use crate::arithmetic::Model;
use crate::base91::{base91_round_trip, decoded, encoded, is_text};
use crate::color::{has_alpha, to_component};
use crate::decoder::{average_rgba, decoded_pixel, decoded_rgba, pixel_a, size_of_hash};
use crate::encoder::{
    encoded_alpha, encoded_count, encoded_header, encoded_len, encoded_nibbles, short_extent,
    thumb_hash, used_luma,
};
use crate::geometry::{
    decoded_size, in_triangle, lemma_decoded_size, lemma_luma_extent, lemma_row_len,
    lemma_rows_bounds, lemma_small_triangles, luma_limit, luma_size, max_of, nearest,
    nearest_is_closest, rows, triangle, DECODED_SIDE,
};
use crate::header::{header_of, header_round_trip, Header};
use crate::nibbles::{nibble, packed, unpacked};
use crate::parts::{
    alpha_of, data_start, has_averages, is_complete, layout, nibble_count, nibbles_of, parts_fit,
    parts_round_trip,
};
use vstd::prelude::*;

verus! {

/// The luminance components that a hash announces are those that its image was transformed
/// with, unless the image is empty on both sides.
pub proof fn announced_components(w: int, h: int, header: Header)
    requires
        0 <= w,
        0 <= h,
        w > 0 || h > 0,
        header.is_landscape == (w > h),
        header.extent == short_extent(w, h, header.has_alpha),
    ensures
        header.aspect() == luma_size(w, h, header.has_alpha),
        header.components() == used_luma(w, h, header.has_alpha),
        1 <= header.extent <= luma_limit(header.has_alpha),
{
    let limit = luma_limit(header.has_alpha);
    lemma_luma_extent(limit, w, max_of(w, h));
    lemma_luma_extent(limit, h, max_of(w, h));
}

/// The hash of an image has between 13 and 25 bytes, and at least 17 where neither side of the
/// image is empty.
pub proof fn hash_length(w: int, h: int, alpha: bool)
    requires
        0 <= w,
        0 <= h,
    ensures
        13 <= encoded_len(w, h, alpha) <= 25,
        w > 0 && h > 0 ==> 17 <= encoded_len(w, h, alpha),
{
    let limit = luma_limit(alpha);
    lemma_luma_extent(limit, w, max_of(w, h));
    lemma_luma_extent(limit, h, max_of(w, h));
    lemma_triangle_sizes(used_luma(w, h, alpha).0, used_luma(w, h, alpha).1);
}

/// How many coefficients a channel with three to seven components along each side has.
pub proof fn lemma_triangle_sizes(nx: int, ny: int)
    requires
        3 <= nx <= 7,
        3 <= ny <= 7,
    ensures
        6 <= triangle(nx, ny).len() <= 28,
        nx <= 5 && ny <= 5 ==> triangle(nx, ny).len() <= 15,
        nx == 7 || ny == 7 ==> triangle(nx, ny).len() >= 15,
        nx == 5 || ny == 5 ==> triangle(nx, ny).len() >= 11,
{
    reveal_with_fuel(rows, 8);
    assert(triangle(3, 3).len() == 6);
    assert(triangle(3, 4).len() == 9);
    assert(triangle(3, 5).len() == 11);
    assert(triangle(3, 6).len() == 12);
    assert(triangle(3, 7).len() == 15);
    assert(triangle(4, 3).len() == 9);
    assert(triangle(4, 4).len() == 10);
    assert(triangle(4, 5).len() == 14);
    assert(triangle(4, 6).len() == 16);
    assert(triangle(4, 7).len() == 19);
    assert(triangle(5, 3).len() == 11);
    assert(triangle(5, 4).len() == 14);
    assert(triangle(5, 5).len() == 15);
    assert(triangle(5, 6).len() == 20);
    assert(triangle(5, 7).len() == 23);
    assert(triangle(6, 3).len() == 12);
    assert(triangle(6, 4).len() == 16);
    assert(triangle(6, 5).len() == 20);
    assert(triangle(6, 6).len() == 21);
    assert(triangle(6, 7).len() == 27);
    assert(triangle(7, 3).len() == 15);
    assert(triangle(7, 4).len() == 19);
    assert(triangle(7, 5).len() == 23);
    assert(triangle(7, 6).len() == 27);
    assert(triangle(7, 7).len() == 28);
    assert(nx == 3 || nx == 4 || nx == 5 || nx == 6 || nx == 7);
    assert(ny == 3 || ny == 4 || ny == 5 || ny == 6 || ny == 7);
}

/// Every hash that is laid out for an image, and whose header fits, can be decoded: it is
/// complete, so that its average colour and its aspect ratio can be read too, neither side of
/// the decoded image is shorter than five, and no part of the hash that leaves bytes at its end
/// out is complete. This does not hold of an image that is empty on both sides.
pub proof fn laid_out_hash_decodes(
    w: int,
    h: int,
    header: Header,
    alpha: Option<(u8, u8)>,
    nibbles: Seq<u8>,
)
    requires
        0 <= w,
        0 <= h,
        w > 0 || h > 0,
        header.fits(),
        header.is_landscape == (w > h),
        header.extent == short_extent(w, h, header.has_alpha),
        alpha is Some == header.has_alpha,
        nibbles.len() == encoded_count(w, h, header.has_alpha),
    ensures
        is_complete(layout(header, alpha, nibbles)),
        has_averages(layout(header, alpha, nibbles)),
        header_of(layout(header, alpha, nibbles)) == header,
        header.aspect() == luma_size(w, h, header.has_alpha),
        header.aspect().1 != 0,
        5 <= size_of_hash(layout(header, alpha, nibbles)).0 <= DECODED_SIDE,
        5 <= size_of_hash(layout(header, alpha, nibbles)).1 <= DECODED_SIDE,
        forall|k: int|
            0 <= k < layout(header, alpha, nibbles).len() ==> !is_complete(
                #[trigger] layout(header, alpha, nibbles).take(k),
            ),
{
    let middle: Seq<u8> = match alpha {
        Some((dc, scale)) => seq![dc | (scale << 4)],
        None => seq![],
    };
    let hash = layout(header, alpha, nibbles);
    assert(hash =~= header.bytes() + (middle + packed(nibbles)));
    header_round_trip(header, middle + packed(nibbles));
    announced_components(w, h, header);
    lemma_small_triangles();
    lemma_luma_extent(luma_limit(header.has_alpha), w, max_of(w, h));
    lemma_luma_extent(luma_limit(header.has_alpha), h, max_of(w, h));
    lemma_decoded_size(header.aspect().0, header.aspect().1);
    assert forall|k: int| 0 <= k < hash.len() implies !is_complete(#[trigger] hash.take(k)) by {
        if k >= 5 {
            assert(header_of(hash.take(k)) == header);
        }
    }
}

/// The hash of an image, where its header fits, can be decoded, and holds the header that was
/// written. None of its bytes is spare: no part that leaves bytes at its end out can be decoded.
pub proof fn encoded_hash_decodes<N>(m: Model<N>, w: int, h: int, rgba: Seq<u8>)
    requires
        0 <= w,
        0 <= h,
        w > 0 || h > 0,
        encoded_header(m, w, h, rgba).fits(),
    ensures
        is_complete(thumb_hash(m, w, h, rgba)),
        has_averages(thumb_hash(m, w, h, rgba)),
        header_of(thumb_hash(m, w, h, rgba)) == encoded_header(m, w, h, rgba),
        header_of(thumb_hash(m, w, h, rgba)).aspect().1 != 0,
        5 <= size_of_hash(thumb_hash(m, w, h, rgba)).0 <= DECODED_SIDE,
        5 <= size_of_hash(thumb_hash(m, w, h, rgba)).1 <= DECODED_SIDE,
        forall|k: int|
            0 <= k < thumb_hash(m, w, h, rgba).len() ==> !is_complete(
                #[trigger] thumb_hash(m, w, h, rgba).take(k),
            ),
{
    lemma_encoded_count(m, w, h, rgba);
    laid_out_hash_decodes(
        w,
        h,
        encoded_header(m, w, h, rgba),
        encoded_alpha(m, w, h, rgba),
        encoded_nibbles(m, w, h, rgba),
    );
}

/// The hash of an image, where all that it records fits, is read back as it was written.
pub proof fn encoded_hash_reads_back<N>(m: Model<N>, w: int, h: int, rgba: Seq<u8>)
    requires
        0 <= w,
        0 <= h,
        w > 0 || h > 0,
        parts_fit(
            encoded_header(m, w, h, rgba),
            encoded_alpha(m, w, h, rgba),
            encoded_nibbles(m, w, h, rgba),
        ),
    ensures
        is_complete(thumb_hash(m, w, h, rgba)),
        header_of(thumb_hash(m, w, h, rgba)) == encoded_header(m, w, h, rgba),
        alpha_of(thumb_hash(m, w, h, rgba)) == encoded_alpha(m, w, h, rgba),
        nibbles_of(thumb_hash(m, w, h, rgba)) == encoded_nibbles(m, w, h, rgba),
{
    let header = encoded_header(m, w, h, rgba);
    lemma_encoded_count(m, w, h, rgba);
    announced_components(w, h, header);
    lemma_small_triangles();
    parts_round_trip(header, encoded_alpha(m, w, h, rgba), encoded_nibbles(m, w, h, rgba));
}

/// There are as many nibbles in the hash of an image as its size calls for.
proof fn lemma_encoded_count<N>(m: Model<N>, w: int, h: int, rgba: Seq<u8>)
    requires
        0 <= w,
        0 <= h,
    ensures
        encoded_nibbles(m, w, h, rgba).len() == encoded_count(w, h, has_alpha(rgba, w * h)),
        encoded_header(m, w, h, rgba).extent == short_extent(w, h, has_alpha(rgba, w * h)),
{
    let alpha = has_alpha(rgba, w * h);
    let (nx, ny) = used_luma(w, h, alpha);
    lemma_small_triangles();
    lemma_luma_extent(luma_limit(alpha), w, max_of(w, h));
    lemma_luma_extent(luma_limit(alpha), h, max_of(w, h));
    lemma_triangle_sizes(nx, ny);
}

/// The text form of the hash of an image, where its header fits, can be decoded, and to the same
/// image as the hash itself.
pub proof fn encoded_text_decodes<N>(m: Model<N>, w: int, h: int, rgba: Seq<u8>)
    requires
        0 <= w,
        0 <= h,
        w > 0 || h > 0,
        encoded_header(m, w, h, rgba).fits(),
    ensures
        is_text(encoded(thumb_hash(m, w, h, rgba))),
        is_complete(decoded(encoded(thumb_hash(m, w, h, rgba)))),
        decoded_rgba(m, decoded(encoded(thumb_hash(m, w, h, rgba)))) == decoded_rgba(
            m,
            thumb_hash(m, w, h, rgba),
        ),
{
    encoded_hash_decodes(m, w, h, rgba);
    base91_round_trip(thumb_hash(m, w, h, rgba));
}

/// The hash of an image records more components along the longer side than along the shorter
/// one, or as many, and the decoded image has its full length along the longer side.
pub proof fn orientation_is_kept(w: int, h: int, alpha: bool)
    requires
        0 <= w,
        0 <= h,
        w > 0 || h > 0,
    ensures
        w >= h ==> luma_size(w, h, alpha).0 == luma_limit(alpha) && luma_size(w, h, alpha).1
            <= luma_limit(alpha),
        h >= w ==> luma_size(w, h, alpha).1 == luma_limit(alpha) && luma_size(w, h, alpha).0
            <= luma_limit(alpha),
        w >= h ==> decoded_size(luma_size(w, h, alpha).0, luma_size(w, h, alpha).1).0
            == DECODED_SIDE,
        h >= w ==> decoded_size(luma_size(w, h, alpha).0, luma_size(w, h, alpha).1).1
            == DECODED_SIDE,
{
    let limit = luma_limit(alpha);
    lemma_luma_extent(limit, w, max_of(w, h));
    lemma_luma_extent(limit, h, max_of(w, h));
}

/// The aspect ratio that the hash of an image records is as close to that of the image as the
/// number of components along the longer side allows: the shorter side gets the closest number
/// of components, or one where that would be none.
pub proof fn aspect_is_close(w: int, h: int, alpha: bool)
    requires
        0 <= w,
        0 <= h,
        w > 0 || h > 0,
    ensures
        ({
            let limit = luma_limit(alpha);
            let short = if w < h {
                w
            } else {
                h
            };
            let long = max_of(w, h);
            let components = short_extent(w, h, alpha);
            ||| -long <= 2 * (limit * short - components * long) < long
            ||| 2 * (limit * short) < long && components == 1
        }),
{
    let limit = luma_limit(alpha);
    let long = max_of(w, h);
    let short = if w < h {
        w
    } else {
        h
    };
    let r = nearest(limit * short, long);
    nearest_is_closest(limit * short, long);
    lemma_luma_extent(limit, w, long);
    lemma_luma_extent(limit, h, long);
    if r <= 0 {
        assert(r * long <= 0) by (nonlinear_arith)
            requires
                r <= 0,
                long > 0,
        ;
    }
}

/// Where a hash has no alpha channel, every pixel that it is decoded to has the alpha component
/// of the number one.
pub proof fn opaque_hash_decodes_opaque<N>(m: Model<N>, hash: Seq<u8>, i: int)
    requires
        is_complete(hash),
        !header_of(hash).has_alpha,
        0 <= i < size_of_hash(hash).0 * size_of_hash(hash).1,
    ensures
        decoded_rgba(m, hash)[4 * i + 3] == to_component(m, m.from_int(1)),
{
    let (w, h) = size_of_hash(hash);
    assert((4 * i + 3) / 4 == i && (4 * i + 3) % 4 == 3);
}

/// The decoded image depends on nothing but the header, the alpha byte and the nibbles.
pub proof fn same_parts_same_image<N>(m: Model<N>, hash: Seq<u8>, other: Seq<u8>)
    requires
        header_of(hash) == header_of(other),
        alpha_of(hash) == alpha_of(other),
        nibbles_of(hash) == nibbles_of(other),
    ensures
        size_of_hash(hash) == size_of_hash(other),
        decoded_rgba(m, hash) == decoded_rgba(m, other),
{
    assert forall|x: int, y: int| #[trigger] decoded_pixel(m, hash, x, y) == decoded_pixel(
        m,
        other,
        x,
        y,
    ) by {
        assert(pixel_a(m, hash, x, y) == pixel_a(m, other, x, y));
    }
    assert(decoded_rgba(m, hash) =~= decoded_rgba(m, other));
}

/// Bytes after the end of a complete hash change nothing.
pub proof fn trailing_bytes_are_ignored<N>(m: Model<N>, hash: Seq<u8>, rest: Seq<u8>)
    requires
        is_complete(hash),
    ensures
        is_complete(hash + rest),
        size_of_hash(hash + rest) == size_of_hash(hash),
        decoded_rgba(m, hash + rest) == decoded_rgba(m, hash),
{
    let header = header_of(hash);
    assert(header_of(hash + rest) == header);
    let start = data_start(header);
    let data = hash.skip(start);
    assert((hash + rest).skip(start) =~= data + rest);
    let count = nibble_count(header);
    lemma_small_triangles();
    lemma_triangle_sizes(header.components().0, header.components().1);
    assert(unpacked(data + rest, count) =~= unpacked(data, count));
    assert(nibbles_of(hash + rest) == nibbles_of(hash));
    same_parts_same_image(m, hash + rest, hash);
}

/// Where a complete hash holds an odd number of nibbles, the other half of the byte with the last
/// one changes nothing.
pub proof fn unused_half_byte_is_ignored<N>(m: Model<N>, hash: Seq<u8>, byte: u8)
    requires
        is_complete(hash),
        nibble_count(header_of(hash)) % 2 == 1,
        ({
            let last = data_start(header_of(hash)) + nibble_count(header_of(hash)) / 2;
            byte % 16 == hash[last] % 16
        }),
    ensures
        ({
            let last = data_start(header_of(hash)) + nibble_count(header_of(hash)) / 2;
            &&& is_complete(hash.update(last, byte))
            &&& size_of_hash(hash.update(last, byte)) == size_of_hash(hash)
            &&& decoded_rgba(m, hash.update(last, byte)) == decoded_rgba(m, hash)
        }),
{
    let header = header_of(hash);
    let start = data_start(header);
    let count = nibble_count(header);
    let last = start + count / 2;
    let other = hash.update(last, byte);
    lemma_small_triangles();
    lemma_triangle_sizes(header.components().0, header.components().1);
    assert(header_of(other) == header);
    assert(other.skip(start) =~= hash.skip(start).update(count / 2, byte));
    assert forall|i: int| 0 <= i < count implies #[trigger] nibble(other.skip(start), i) == nibble(
        hash.skip(start),
        i,
    ) by {
        if i / 2 == count / 2 {
            assert(i % 2 == 0);
        }
    }
    assert(nibbles_of(other) =~= nibbles_of(hash));
    same_parts_same_image(m, other, hash);
}

/// The average colour is read from nothing but the first two bytes of a hash, the lowest two bits
/// and the highest bit of the third byte and, where there is an alpha channel, the low half of
/// the sixth byte: scales, proportions and coefficients have no influence on it.
pub proof fn average_depends_on_averages<N>(m: Model<N>, hash: Seq<u8>, other: Seq<u8>)
    requires
        has_averages(hash),
        has_averages(other),
        hash[0] == other[0],
        hash[1] == other[1],
        hash[2] & 0x83 == other[2] & 0x83,
        header_of(hash).has_alpha ==> hash[5] & 0x0f == other[5] & 0x0f,
    ensures
        average_rgba(m, hash) == average_rgba(m, other),
{
    lemma_average_bits(hash[0], hash[1], hash[2], other[2]);
    assert(header_of(hash).l_dc == header_of(other).l_dc);
    assert(header_of(hash).p_dc == header_of(other).p_dc);
    assert(header_of(hash).q_dc == header_of(other).q_dc);
    assert(header_of(hash).has_alpha == header_of(other).has_alpha);
    if header_of(hash).has_alpha {
        let a = hash[5];
        let b = other[5];
        assert(a % 16 == b % 16) by (bit_vector)
            requires
                a & 0x0f == b & 0x0f,
        ;
    }
}

proof fn lemma_average_bits(b0: u8, b1: u8, b2: u8, c2: u8)
    by (bit_vector)
    requires
        b2 & 0x83 == c2 & 0x83,
    ensures
        (b0 + 256 * b1 + 65536 * b2) % 64 == (b0 + 256 * b1 + 65536 * c2) % 64,
        (b0 + 256 * b1 + 65536 * b2) / 64 % 64 == (b0 + 256 * b1 + 65536 * c2) / 64 % 64,
        (b0 + 256 * b1 + 65536 * b2) / 4096 % 64 == (b0 + 256 * b1 + 65536 * c2) / 4096 % 64,
        (b0 + 256 * b1 + 65536 * b2) / 8388608 == (b0 + 256 * b1 + 65536 * c2) / 8388608,
{
}

/// Whether the frequencies `a` come before the frequencies `b` in a hash: by the vertical
/// frequency first, then by the horizontal one.
pub open spec fn comes_before(a: (usize, usize), b: (usize, usize)) -> bool {
    a.1 < b.1 || (a.1 == b.1 && a.0 < b.0)
}

/// A hash holds a coefficient for each pair of frequencies below the diagonal and for no other
/// pair.
pub proof fn coefficients_are_those_below_the_diagonal(nx: int, ny: int, cx: usize, cy: usize)
    requires
        0 <= nx <= usize::MAX,
        0 <= ny <= usize::MAX,
    ensures
        triangle(nx, ny).contains((cx, cy)) <==> in_triangle(nx, ny, cx as int, cy as int),
{
    if in_triangle(nx, ny, cx as int, cy as int) {
        lemma_rows_contain(nx, ny, ny, cx, cy);
    }
    if triangle(nx, ny).contains((cx, cy)) {
        let j = choose|j: int| 0 <= j < triangle(nx, ny).len() && triangle(nx, ny)[j] == (cx, cy);
        lemma_rows_bounds(nx, ny, ny, j);
    }
}

proof fn lemma_rows_contain(nx: int, ny: int, limit: int, cx: usize, cy: usize)
    requires
        0 <= nx <= usize::MAX,
        0 <= limit <= ny <= usize::MAX,
        cy < limit,
        in_triangle(nx, ny, cx as int, cy as int),
    ensures
        rows(nx, ny, limit).contains((cx, cy)),
    decreases limit,
{
    let before = rows(nx, ny, limit - 1);
    if cy < limit - 1 {
        lemma_rows_contain(nx, ny, limit - 1, cx, cy);
        let j = choose|j: int| 0 <= j < before.len() && before[j] == (cx, cy);
        assert(rows(nx, ny, limit)[j] == (cx, cy));
    } else {
        lemma_row_len(nx, ny, cx as int, cy as int);
        assert(rows(nx, ny, limit)[before.len() + cx] == (cx, cy));
    }
}

/// The coefficients of a hash are in order, and none occurs twice.
pub proof fn coefficients_are_in_order(nx: int, ny: int, i: int, j: int)
    requires
        0 <= nx <= usize::MAX,
        0 <= ny <= usize::MAX,
        0 <= i < j < triangle(nx, ny).len(),
    ensures
        comes_before(triangle(nx, ny)[i], triangle(nx, ny)[j]),
{
    lemma_rows_in_order(nx, ny, ny, i, j);
}

proof fn lemma_rows_in_order(nx: int, ny: int, limit: int, i: int, j: int)
    requires
        0 <= nx <= usize::MAX,
        0 <= limit <= ny <= usize::MAX,
        0 <= i < j < rows(nx, ny, limit).len(),
    ensures
        comes_before(rows(nx, ny, limit)[i], rows(nx, ny, limit)[j]),
    decreases limit,
{
    let before = rows(nx, ny, limit - 1);
    lemma_row_len(nx, ny, 0, limit - 1);
    if j < before.len() {
        lemma_rows_in_order(nx, ny, limit - 1, i, j);
    } else if i < before.len() {
        lemma_rows_bounds(nx, ny, limit - 1, i);
    }
}

} // verus!
