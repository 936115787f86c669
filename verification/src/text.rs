//! Hashes in their text form.
use crate::arithmetic::{describes, Arithmetic, Model};
use crate::base91::{base91_decode, base91_encode, decoded, encoded, is_text};
use crate::color::has_alpha;
use crate::decoder::{decoded_rgba, size_of_hash, thumb_hash_to_rgba};
use crate::encoder::{is_hash_of_size, rgba_to_thumb_hash, thumb_hash};
use crate::geometry::MAX_SIDE;
use crate::parts::is_complete;
use vstd::prelude::*;

verus! {

/// Encodes an image of `w` by `h` pixels to the text form of its hash.
pub fn rgba_to_thumb_hash_b91<A: Arithmetic>(w: usize, h: usize, rgba: &[u8]) -> (text: String)
    requires
        w <= MAX_SIDE,
        h <= MAX_SIDE,
        rgba@.len() == w * h * 4,
    ensures
        exists|hash: Seq<u8>|
            text@ == #[trigger] encoded(hash) && is_hash_of_size(
                hash,
                w as int,
                h as int,
                has_alpha(rgba@, w * h),
            ),
        forall|m: Model<A::Num>| #[trigger]
            describes::<A>(m) ==> text@ == encoded(thumb_hash(m, w as int, h as int, rgba@)),
{
    let hash = rgba_to_thumb_hash::<A>(w, h, rgba);
    base91_encode(hash.as_slice())
}

/// Decodes the text form of a hash to the image that the hash stands for. Fails where the text
/// holds a character that is not a digit, and where the hash is too short.
pub fn thumb_hash_from_b91<A: Arithmetic>(text: &str) -> (r: Result<(usize, usize, Vec<u8>), ()>)
    ensures
        r is Ok <==> is_text(text@) && is_complete(decoded(text@)),
        r matches Ok((w, h, rgba)) ==> {
            &&& (w as int, h as int) == size_of_hash(decoded(text@))
            &&& rgba@.len() == w * h * 4
            &&& forall|m: Model<A::Num>| #[trigger]
                describes::<A>(m) ==> rgba@ == decoded_rgba(m, decoded(text@))
        },
{
    match base91_decode(text) {
        Ok(hash) => thumb_hash_to_rgba::<A>(hash.as_slice()),
        Err(_) => Err(()),
    }
}

} // verus!
