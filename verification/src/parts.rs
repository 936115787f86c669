//! The parts of a hash: the header, the byte of the alpha channel and the nibbles of the
//! coefficients.
use crate::geometry::{
    lemma_small_triangles, lemma_triangle_first, lemma_triangle_len, positions, triangle,
};
use crate::header::{header_of, header_round_trip, Header};
use crate::nibbles::{nibbles_round_trip, pack_nibbles, packed, unpack_nibbles, unpacked};
use vstd::prelude::*;

verus! {

/// What a hash holds, as whole numbers.
pub struct Parts {
    pub header: Header,
    /// The average and the scale of the alpha channel, where there is one.
    pub alpha: Option<(u8, u8)>,
    /// The coefficients of the luminance, of the two chroma channels and of the alpha channel,
    /// where there is one, one after the other.
    pub nibbles: Vec<u8>,
}

/// The number of luminance coefficients other than the average.
pub open spec fn luma_count(header: Header) -> int {
    triangle(header.components().0, header.components().1).len() - 1
}

/// The number of coefficients of a chroma channel other than the average.
pub open spec fn chroma_count() -> int {
    triangle(3, 3).len() - 1
}

/// The number of coefficients of an alpha channel other than the average.
pub open spec fn alpha_count() -> int {
    triangle(5, 5).len() - 1
}

/// The number of nibbles of a hash with this header.
pub open spec fn nibble_count(header: Header) -> int {
    luma_count(header) + 2 * chroma_count() + if header.has_alpha {
        alpha_count()
    } else {
        0
    }
}

/// The index of the first byte that holds nibbles.
pub open spec fn data_start(header: Header) -> int {
    if header.has_alpha {
        6
    } else {
        5
    }
}

/// Whether `hash` is long enough for its header and, where there is one, the byte of the alpha
/// channel.
pub open spec fn has_averages(hash: Seq<u8>) -> bool {
    hash.len() >= 5 && hash.len() >= data_start(header_of(hash))
}

/// Whether `hash` is long enough for everything that its header announces.
pub open spec fn is_complete(hash: Seq<u8>) -> bool {
    has_averages(hash) && nibble_count(header_of(hash)) <= 2 * (hash.len() - data_start(
        header_of(hash),
    ))
}

/// The average and the scale of the alpha channel of `hash`, where there is one.
pub open spec fn alpha_of(hash: Seq<u8>) -> Option<(u8, u8)> {
    if header_of(hash).has_alpha {
        Some(((hash[5] % 16) as u8, (hash[5] / 16) as u8))
    } else {
        None
    }
}

/// The nibbles of the coefficients of `hash`.
pub open spec fn nibbles_of(hash: Seq<u8>) -> Seq<u8> {
    unpacked(hash.skip(data_start(header_of(hash))), nibble_count(header_of(hash)))
}

/// The bytes of a hash with these parts.
pub open spec fn layout(header: Header, alpha: Option<(u8, u8)>, nibbles: Seq<u8>) -> Seq<u8> {
    header.bytes() + (match alpha {
        Some((dc, scale)) => seq![dc | (scale << 4)],
        None => seq![],
    }) + packed(nibbles)
}

/// Whether there is an average and a scale of the alpha channel just where the header
/// announces them, and as many nibbles as it announces.
pub open spec fn parts_agree(header: Header, alpha: Option<(u8, u8)>, nibbles: Seq<u8>) -> bool {
    &&& alpha is Some <==> header.has_alpha
    &&& nibbles.len() == nibble_count(header)
}

/// Whether each number is small enough for its bits.
pub open spec fn parts_fit(header: Header, alpha: Option<(u8, u8)>, nibbles: Seq<u8>) -> bool {
    &&& header.fits()
    &&& alpha matches Some((dc, scale)) ==> dc < 16 && scale < 16
    &&& forall|i: int| 0 <= i < nibbles.len() ==> #[trigger] nibbles[i] < 16
}

impl Parts {
    /// Lays the parts of a hash out in bytes.
    pub fn to_bytes(&self) -> (hash: Vec<u8>)
        ensures
            hash@ == layout(self.header, self.alpha, self.nibbles@),
    {
        let mut hash = self.header.to_bytes();
        if let Some((dc, scale)) = self.alpha {
            hash.push(dc | (scale << 4));
        }
        pack_nibbles(&self.nibbles, &mut hash);
        hash
    }

    /// Reads the parts of a hash.
    pub fn parse(hash: &[u8]) -> (r: Result<Parts, ()>)
        ensures
            r is Ok <==> is_complete(hash@),
            r matches Ok(parts) ==> {
                &&& parts.header == header_of(hash@)
                &&& parts.alpha == alpha_of(hash@)
                &&& parts.nibbles@ == nibbles_of(hash@)
            },
    {
        let (header, alpha) = match parse_averages(hash) {
            Ok(averages) => averages,
            Err(_) => {
                return Err(());
            },
        };
        let start: usize = if header.has_alpha {
            6
        } else {
            5
        };
        let count = count_nibbles(&header);
        if count / 2 + count % 2 > hash.len() - start {
            return Err(());
        }
        let nibbles = unpack_nibbles(hash, start, count);
        Ok(Parts { header, alpha, nibbles })
    }
}

/// Reads the header of a hash and, where there is one, the byte of its alpha channel.
pub fn parse_averages(hash: &[u8]) -> (r: Result<(Header, Option<(u8, u8)>), ()>)
    ensures
        r is Ok <==> has_averages(hash@),
        r matches Ok((header, alpha)) ==> header == header_of(hash@) && alpha == alpha_of(hash@),
{
    let header = match Header::parse(hash) {
        Ok(header) => header,
        Err(_) => {
            return Err(());
        },
    };
    if !header.has_alpha {
        return Ok((header, None));
    }
    if hash.len() < 6 {
        return Err(());
    }
    let byte = hash[5];
    assert(byte & 15 == byte % 16 && byte >> 4 == byte / 16) by (bit_vector);
    Ok((header, Some((byte & 15, byte >> 4))))
}

/// The number of nibbles of a hash with this header.
pub fn count_nibbles(header: &Header) -> (n: usize)
    requires
        header.extent < 8,
    ensures
        n == nibble_count(*header),
{
    let (lx, ly) = header.used_components();
    assert(lx * ly <= 49) by (nonlinear_arith)
        requires
            lx <= 7,
            ly <= 7,
    ;
    proof {
        lemma_triangle_first(lx as int, ly as int);
        lemma_triangle_len(lx as int, ly as int);
        lemma_small_triangles();
    }
    let luma = positions(lx, ly).len() - 1;
    if header.has_alpha {
        luma + 24
    } else {
        luma + 10
    }
}

/// The header and the alpha byte of a hash, where they agree and fit, are read back from its bytes,
/// whatever its nibbles are.
pub proof fn averages_round_trip(header: Header, alpha: Option<(u8, u8)>, nibbles: Seq<u8>)
    requires
        alpha is Some <==> header.has_alpha,
        header.fits(),
        alpha matches Some((dc, scale)) ==> dc < 16 && scale < 16,
    ensures
        has_averages(layout(header, alpha, nibbles)),
        header_of(layout(header, alpha, nibbles)) == header,
        alpha_of(layout(header, alpha, nibbles)) == alpha,
{
    let middle: Seq<u8> = match alpha {
        Some((dc, scale)) => seq![dc | (scale << 4)],
        None => seq![],
    };
    let hash = layout(header, alpha, nibbles);
    assert(hash =~= header.bytes() + (middle + packed(nibbles)));
    header_round_trip(header, middle + packed(nibbles));
    if let Some((dc, scale)) = alpha {
        assert((dc | (scale << 4)) % 16 == dc && (dc | (scale << 4)) / 16 == scale) by (bit_vector)
            requires
                dc < 16,
                scale < 16,
        ;
        assert(hash[5] == dc | (scale << 4));
    }
}

/// The parts of a hash, where they agree and fit, are read back from its bytes: the hash is
/// complete, and holds the same header, the same alpha byte and the same nibbles.
pub proof fn parts_round_trip(header: Header, alpha: Option<(u8, u8)>, nibbles: Seq<u8>)
    requires
        parts_agree(header, alpha, nibbles),
        parts_fit(header, alpha, nibbles),
    ensures
        is_complete(layout(header, alpha, nibbles)),
        header_of(layout(header, alpha, nibbles)) == header,
        alpha_of(layout(header, alpha, nibbles)) == alpha,
        nibbles_of(layout(header, alpha, nibbles)) == nibbles,
{
    let data = packed(nibbles);
    let hash = layout(header, alpha, nibbles);
    averages_round_trip(header, alpha, nibbles);
    assert(hash.skip(data_start(header)) =~= data + Seq::<u8>::empty());
    nibbles_round_trip(nibbles, Seq::empty());
}

} // verus!
