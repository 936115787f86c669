//! Conversions of numbers that may be too large.
use vstd::prelude::*;

verus! {

/// `n` brought into the range of a byte.
pub open spec fn byte_of(n: u32) -> u8 {
    if n < 256 {
        n as u8
    } else {
        255
    }
}

/// `n` brought into the range of two bytes.
pub open spec fn short_of(n: u32) -> u16 {
    if n < 65536 {
        n as u16
    } else {
        65535
    }
}

/// Brings `n` into the range of a byte.
pub fn to_byte(n: u32) -> (r: u8)
    ensures
        r == byte_of(n),
{
    if n < 256 {
        n as u8
    } else {
        255
    }
}

/// Brings `n` into the range of two bytes.
pub fn to_short(n: u32) -> (r: u16)
    ensures
        r == short_of(n),
{
    if n < 65536 {
        n as u16
    } else {
        65535
    }
}

} // verus!
