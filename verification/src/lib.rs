//! A ThumbHash encoder and decoder.
//!
//! A ThumbHash is a compact image placeholder: a handful of bytes that hold the average
//! colour of an image, its approximate aspect ratio and the lowest frequencies of its
//! luminance, its two chroma channels and its alpha channel.
//!
//! The codec is written once, over the [`Arithmetic`] trait, and every step of it is verified
//! for every arithmetic: the bytes of the format, the order of the coefficients, the indices
//! of the transforms and the order of their operations. What a contract says of the numbers
//! holds where the operations of the arithmetic are functions of their arguments. What the codec
//! keeps of an image is proved for exact arithmetic, and for arithmetic that rounds as floating
//! point with 24 significant bits does.

pub mod accuracy;
pub mod arithmetic;
pub mod base91;
pub mod base91_numbers;
pub mod color;
pub mod cosine;
pub mod decoder;
pub mod encoder;
pub mod exact;
pub mod fidelity;
pub mod format;
pub mod formulas;
pub mod forward;
pub mod geometry;
pub mod header;
pub mod image;
pub mod inverse;
pub mod laws;
pub mod nibbles;
pub mod parts;
pub mod pixels;
pub mod preview;
pub mod rounded;
pub mod rounded_average;
pub mod rounded_coefficient;
pub mod rounded_color;
pub mod rounded_cosine;
pub mod rounded_decoder;
pub mod rounded_formulas;
pub mod rounded_forward;
pub mod rounded_hash;
pub mod rounded_inverse;
pub mod rounded_multiples;
pub mod rounded_nibbles;
pub mod rounded_solid;
pub mod rounded_symmetry;
pub mod saturate;
pub mod solid;
pub mod steps;
pub mod symmetry;
pub mod text;
pub mod transparency;

pub use arithmetic::Arithmetic;
pub use base91::{base91_decode, base91_encode};
pub use decoder::{
    thumb_hash_to_approximate_aspect_ratio, thumb_hash_to_average_rgba, thumb_hash_to_rgba,
};
pub use encoder::rgba_to_thumb_hash;
pub use text::{rgba_to_thumb_hash_b91, thumb_hash_from_b91};
