//! Sequences of four-bit numbers, two to a byte.
use vstd::prelude::*;

verus! {

/// The bytes that hold `nibbles`, the first of each pair in the low bits. The last byte holds
/// a single one where their number is odd.
pub open spec fn packed(nibbles: Seq<u8>) -> Seq<u8> {
    Seq::new(
        (nibbles.len() + 1) / 2,
        |i: int|
            if 2 * i + 1 < nibbles.len() {
                nibbles[2 * i] | (nibbles[2 * i + 1] << 4)
            } else {
                nibbles[2 * i]
            },
    )
}

/// The nibble at index `i` of `data`.
pub open spec fn nibble(data: Seq<u8>, i: int) -> u8 {
    if i % 2 == 0 {
        data[i / 2] % 16
    } else {
        data[i / 2] / 16
    }
}

/// The first `n` nibbles of `data`.
pub open spec fn unpacked(data: Seq<u8>, n: int) -> Seq<u8> {
    Seq::new(n as nat, |i: int| nibble(data, i))
}

/// Appends `nibbles` to `out`, two to a byte.
pub fn pack_nibbles(nibbles: &Vec<u8>, out: &mut Vec<u8>)
    ensures
        final(out)@ == old(out)@ + packed(nibbles@),
{
    let ghost before = out@;
    let mut i: usize = 0;
    while i < nibbles.len() && i + 1 < nibbles.len()
        invariant
            i <= nibbles.len(),
            i % 2 == 0,
            out@ == before + packed(nibbles@).take(i as int / 2),
        decreases nibbles.len() - i,
    {
        out.push(nibbles[i] | (nibbles[i + 1] << 4));
        i += 2;
        assert(out@ == before + packed(nibbles@).take(i as int / 2));
    }
    if i < nibbles.len() {
        out.push(nibbles[i]);
    }
    assert(out@ == before + packed(nibbles@));
}

/// Reads the first `n` nibbles of the bytes of `data` from `start` on.
pub fn unpack_nibbles(data: &[u8], start: usize, n: usize) -> (out: Vec<u8>)
    requires
        start <= data@.len(),
        n <= 2 * (data@.len() - start),
    ensures
        out@ == unpacked(data@.skip(start as int), n as int),
{
    let mut out: Vec<u8> = Vec::new();
    let mut i: usize = 0;
    while i < n
        invariant
            i <= n,
            start <= data.len(),
            n <= 2 * (data.len() - start),
            out@ == unpacked(data@.skip(start as int), i as int),
        decreases n - i,
    {
        let byte = data[start + i / 2];
        assert(byte & 15 == byte % 16 && byte >> 4 == byte / 16) by (bit_vector);
        let value: u8 = if i % 2 == 0 {
            byte & 15
        } else {
            byte >> 4
        };
        out.push(value);
        i += 1;
        assert(out@ == unpacked(data@.skip(start as int), i as int));
    }
    out
}

/// Nibbles are read back from the bytes that they are packed into, whatever follows them.
pub proof fn nibbles_round_trip(nibbles: Seq<u8>, rest: Seq<u8>)
    requires
        forall|i: int| 0 <= i < nibbles.len() ==> #[trigger] nibbles[i] < 16,
    ensures
        unpacked(packed(nibbles) + rest, nibbles.len() as int) == nibbles,
{
    let data = packed(nibbles) + rest;
    assert forall|i: int| 0 <= i < nibbles.len() implies nibble(data, i) == nibbles[i] by {
        let lo = nibbles[2 * (i / 2)];
        if 2 * (i / 2) + 1 < nibbles.len() {
            let hi = nibbles[2 * (i / 2) + 1];
            assert((lo | (hi << 4)) % 16 == lo && (lo | (hi << 4)) / 16 == hi) by (bit_vector)
                requires
                    lo < 16,
                    hi < 16,
            ;
        }
    }
    assert(unpacked(data, nibbles.len() as int) =~= nibbles);
}

/// Every nibble that is read is below sixteen, and packing all of them again gives back the
/// bytes that they were read from.
pub proof fn nibbles_reread(data: Seq<u8>)
    ensures
        forall|i: int| 0 <= i < 2 * data.len() ==> #[trigger] nibble(data, i) < 16,
        packed(unpacked(data, 2 * data.len() as int)) == data,
{
    let nibbles = unpacked(data, 2 * data.len() as int);
    assert forall|i: int| 0 <= i < data.len() implies packed(nibbles)[i] == data[i] by {
        let byte = data[i];
        assert((byte % 16) as u8 | (((byte / 16) as u8) << 4) == byte) by (bit_vector);
        assert((2 * i + 1) / 2 == i);
    }
    assert(packed(nibbles) =~= data);
}

} // verus!
