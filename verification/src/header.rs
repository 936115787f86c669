//! The five bytes that every hash begins with.
//!
//! The first three bytes hold a little-endian number with these fields, from the low bits up:
//! the luminance average (6 bits), the two chroma averages (6 bits each), the luminance scale
//! (5 bits) and whether there is an alpha channel (1 bit). The other two bytes hold another
//! one: the number of luminance components along the shorter side (3 bits), the two chroma
//! scales (6 bits each) and whether the image is wider than high (1 bit).
use crate::geometry::{luma_limit, max_of};
use vstd::prelude::*;

verus! {

/// The fields of the first five bytes of a hash.
#[derive(Clone, Copy, Debug, PartialEq, Eq, Structural)]
pub struct Header {
    pub l_dc: u32,
    pub p_dc: u32,
    pub q_dc: u32,
    pub l_scale: u32,
    pub has_alpha: bool,
    pub extent: u16,
    pub p_scale: u16,
    pub q_scale: u16,
    pub is_landscape: bool,
}

/// The number in the first three bytes of a hash.
pub open spec fn word24(hash: Seq<u8>) -> int {
    hash[0] + 256 * hash[1] + 65536 * hash[2]
}

/// The number in the fourth and fifth byte of a hash.
pub open spec fn word16(hash: Seq<u8>) -> int {
    hash[3] + 256 * hash[4]
}

/// The header of a hash of at least five bytes.
pub open spec fn header_of(hash: Seq<u8>) -> Header {
    Header {
        l_dc: (word24(hash) % 64) as u32,
        p_dc: (word24(hash) / 64 % 64) as u32,
        q_dc: (word24(hash) / 4096 % 64) as u32,
        l_scale: (word24(hash) / 262144 % 32) as u32,
        has_alpha: word24(hash) / 8388608 != 0,
        extent: (word16(hash) % 8) as u16,
        p_scale: (word16(hash) / 8 % 64) as u16,
        q_scale: (word16(hash) / 512 % 64) as u16,
        is_landscape: word16(hash) / 32768 != 0,
    }
}

impl Header {
    /// Whether each field is small enough for its bits.
    pub open spec fn fits(self) -> bool {
        &&& self.l_dc < 64
        &&& self.p_dc < 64
        &&& self.q_dc < 64
        &&& self.l_scale < 32
        &&& self.extent < 8
        &&& self.p_scale < 64
        &&& self.q_scale < 64
    }

    /// The number in the first three bytes. The bits of a field that is too large spill over
    /// into the fields above it.
    pub open spec fn low_word(self) -> u32 {
        self.l_dc | (self.p_dc << 6) | (self.q_dc << 12) | (self.l_scale << 18) | (
        if self.has_alpha {
            8388608u32
        } else {
            0
        })
    }

    /// The number in the other two bytes.
    pub open spec fn high_word(self) -> u16 {
        self.extent | (self.p_scale << 3) | (self.q_scale << 9) | (if self.is_landscape {
            32768u16
        } else {
            0
        })
    }

    /// The five bytes of the header.
    pub open spec fn bytes(self) -> Seq<u8> {
        seq![
            (self.low_word() & 255) as u8,
            ((self.low_word() >> 8) & 255) as u8,
            ((self.low_word() >> 16) & 255) as u8,
            (self.high_word() & 255) as u8,
            (self.high_word() >> 8) as u8,
        ]
    }

    /// The numbers of luminance components along the width and the height, as they are
    /// recorded: their quotient is the approximate aspect ratio.
    pub open spec fn aspect(self) -> (int, int) {
        if self.is_landscape {
            (luma_limit(self.has_alpha), self.extent as int)
        } else {
            (self.extent as int, luma_limit(self.has_alpha))
        }
    }

    /// The numbers of luminance components along the width and the height, as they are used:
    /// at least three.
    pub open spec fn components(self) -> (int, int) {
        (max_of(3, self.aspect().0), max_of(3, self.aspect().1))
    }

    /// Lays the header out in bytes.
    pub fn to_bytes(&self) -> (out: Vec<u8>)
        ensures
            out@ == self.bytes(),
    {
        let alpha_bit: u32 = if self.has_alpha {
            8388608
        } else {
            0
        };
        let low: u32 = self.l_dc | (self.p_dc << 6) | (self.q_dc << 12) | (self.l_scale << 18)
            | alpha_bit;
        let landscape_bit: u16 = if self.is_landscape {
            32768
        } else {
            0
        };
        let high: u16 = self.extent | (self.p_scale << 3) | (self.q_scale << 9) | landscape_bit;
        let mut out: Vec<u8> = Vec::new();
        out.push((low & 255) as u8);
        out.push(((low >> 8) & 255) as u8);
        out.push(((low >> 16) & 255) as u8);
        out.push((high & 255) as u8);
        out.push((high >> 8) as u8);
        out
    }

    /// Reads the header of a hash.
    pub fn parse(hash: &[u8]) -> (r: Result<Header, ()>)
        ensures
            r is Err <==> hash@.len() < 5,
            r matches Ok(header) ==> header == header_of(hash@),
    {
        if hash.len() < 5 {
            return Err(());
        }
        let low: u32 = hash[0] as u32 | ((hash[1] as u32) << 8) | ((hash[2] as u32) << 16);
        let high: u16 = hash[3] as u16 | ((hash[4] as u16) << 8);
        proof {
            lemma_low_word(hash[0], hash[1], hash[2], low);
            lemma_high_word(hash[3], hash[4], high);
        }
        Ok(
            Header {
                l_dc: low & 63,
                p_dc: (low >> 6) & 63,
                q_dc: (low >> 12) & 63,
                l_scale: (low >> 18) & 31,
                has_alpha: (low >> 23) != 0,
                extent: high & 7,
                p_scale: (high >> 3) & 63,
                q_scale: (high >> 9) & 63,
                is_landscape: (high >> 15) != 0,
            },
        )
    }

    /// The recorded numbers of luminance components along the width and the height.
    pub fn recorded_components(&self) -> (r: (usize, usize))
        ensures
            (r.0 as int, r.1 as int) == self.aspect(),
    {
        let limit: usize = if self.has_alpha {
            5
        } else {
            7
        };
        if self.is_landscape {
            (limit, self.extent as usize)
        } else {
            (self.extent as usize, limit)
        }
    }

    /// The used numbers of luminance components along the width and the height.
    pub fn used_components(&self) -> (r: (usize, usize))
        ensures
            (r.0 as int, r.1 as int) == self.components(),
    {
        let (x, y) = self.recorded_components();
        let lx: usize = if x > 3 {
            x
        } else {
            3
        };
        let ly: usize = if y > 3 {
            y
        } else {
            3
        };
        (lx, ly)
    }
}

proof fn lemma_low_word(b0: u8, b1: u8, b2: u8, low: u32)
    by (bit_vector)
    requires
        low == b0 as u32 | ((b1 as u32) << 8) | ((b2 as u32) << 16),
    ensures
        low == b0 + 256 * b1 + 65536 * b2,
        low & 63 == low % 64,
        (low >> 6) & 63 == low / 64 % 64,
        (low >> 12) & 63 == low / 4096 % 64,
        (low >> 18) & 31 == low / 262144 % 32,
        low >> 23 == low / 8388608,
{
}

proof fn lemma_high_word(b3: u8, b4: u8, high: u16)
    by (bit_vector)
    requires
        high == b3 as u16 | ((b4 as u16) << 8),
    ensures
        high == b3 + 256 * b4,
        high & 7 == high % 8,
        (high >> 3) & 63 == high / 8 % 64,
        (high >> 9) & 63 == high / 512 % 64,
        high >> 15 == high / 32768,
{
}

proof fn lemma_pack_low(l: u32, p: u32, q: u32, s: u32, a: u32, low: u32)
    by (bit_vector)
    requires
        l < 64,
        p < 64,
        q < 64,
        s < 32,
        a == 0 || a == 8388608,
        low == l | (p << 6) | (q << 12) | (s << 18) | a,
    ensures
        (low & 255) as u8 + 256 * (((low >> 8) & 255) as u8) + 65536 * (((low >> 16) & 255) as u8)
            == low,
        low % 64 == l,
        low / 64 % 64 == p,
        low / 4096 % 64 == q,
        low / 262144 % 32 == s,
        low / 8388608 == a / 8388608,
{
}

proof fn lemma_pack_high(e: u16, p: u16, q: u16, a: u16, high: u16)
    by (bit_vector)
    requires
        e < 8,
        p < 64,
        q < 64,
        a == 0 || a == 32768,
        high == e | (p << 3) | (q << 9) | a,
    ensures
        (high & 255) as u8 + 256 * ((high >> 8) as u8) == high,
        high % 8 == e,
        high / 8 % 64 == p,
        high / 512 % 64 == q,
        high / 32768 == a / 32768,
{
}

proof fn lemma_repack_low(b0: u8, b1: u8, b2: u8, word: u32, a: u32, low: u32)
    by (bit_vector)
    requires
        word == b0 + 256 * b1 + 65536 * b2,
        a == 0 || a == 8388608,
        a == 0 <==> word / 8388608 == 0,
        low == (word % 64) as u32 | (((word / 64 % 64) as u32) << 6) | (((word / 4096
            % 64) as u32) << 12) | (((word / 262144 % 32) as u32) << 18) | a,
    ensures
        (low & 255) as u8 == b0,
        ((low >> 8) & 255) as u8 == b1,
        ((low >> 16) & 255) as u8 == b2,
{
}

proof fn lemma_repack_high(b3: u8, b4: u8, word: u16, a: u16, high: u16)
    by (bit_vector)
    requires
        word == b3 + 256 * b4,
        a == 0 || a == 32768,
        a == 0 <==> word / 32768 == 0,
        high == (word % 8) as u16 | (((word / 8 % 64) as u16) << 3) | (((word / 512
            % 64) as u16) << 9) | a,
    ensures
        (high & 255) as u8 == b3,
        (high >> 8) as u8 == b4,
{
}

/// A header whose fields fit is read back from the bytes it is laid out in, whatever follows
/// them.
pub proof fn header_round_trip(header: Header, rest: Seq<u8>)
    requires
        header.fits(),
    ensures
        header_of(header.bytes() + rest) == header,
{
    let alpha_bit: u32 = if header.has_alpha {
        8388608
    } else {
        0
    };
    let landscape_bit: u16 = if header.is_landscape {
        32768
    } else {
        0
    };
    let low = header.low_word();
    let high = header.high_word();
    lemma_pack_low(header.l_dc, header.p_dc, header.q_dc, header.l_scale, alpha_bit, low);
    lemma_pack_high(header.extent, header.p_scale, header.q_scale, landscape_bit, high);
    let hash = header.bytes() + rest;
    assert(word24(hash) == low);
    assert(word16(hash) == high);
}

/// The fields of every header that is read fit, and laying it out again gives back the bytes
/// that it was read from.
pub proof fn header_reread(hash: Seq<u8>)
    requires
        hash.len() >= 5,
    ensures
        header_of(hash).fits(),
        header_of(hash).bytes() == hash.take(5),
{
    let header = header_of(hash);
    let alpha_bit: u32 = if header.has_alpha {
        8388608
    } else {
        0
    };
    let landscape_bit: u16 = if header.is_landscape {
        32768
    } else {
        0
    };
    let low = word24(hash) as u32;
    let high = word16(hash) as u16;
    lemma_repack_low(hash[0], hash[1], hash[2], low, alpha_bit, header.low_word());
    lemma_repack_high(hash[3], hash[4], high, landscape_bit, header.high_word());
    assert(header.bytes() =~= hash.take(5));
}

} // verus!
