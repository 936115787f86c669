//! The text form of hashes.
use fast_thumbhash::{
    base91_decode, base91_encode, rgba_to_thumb_hash, rgba_to_thumb_hash_b91, thumb_hash_from_b91,
    thumb_hash_to_rgba, Arithmetic,
};

/// Single-precision floating point.
struct Single;

impl Arithmetic for Single {
    type Num = f32;

    fn from_int(n: u32) -> f32 {
        n as f32
    }

    fn pi() -> f32 {
        std::f32::consts::PI
    }

    fn plus(a: f32, b: f32) -> f32 {
        a + b
    }

    fn minus(a: f32, b: f32) -> f32 {
        a - b
    }

    fn times(a: f32, b: f32) -> f32 {
        a * b
    }

    fn over(a: f32, b: f32) -> f32 {
        a / b
    }

    fn cos(a: f32) -> f32 {
        a.cos()
    }

    fn abs(a: f32) -> f32 {
        a.abs()
    }

    fn larger(a: f32, b: f32) -> f32 {
        a.max(b)
    }

    fn clamp(a: f32, lo: f32, hi: f32) -> f32 {
        a.clamp(lo, hi)
    }

    fn exceeds(a: f32, b: f32) -> bool {
        a > b
    }

    fn round(a: f32) -> u32 {
        a.round() as u32
    }

    fn truncate(a: f32) -> u32 {
        a as u32
    }
}

/// A hash and its text.
const TEXT: &str = "}U#WoBrZy#_/qQ8PC,N]q7m}6X";
const HASH: [u8; 21] = [
    116, 39, 2, 13, 2, 135, 116, 105, 143, 180, 118, 137, 44, 63, 121, 166, 143, 84, 183, 127, 134,
];

/// An image with a different colour in each pixel.
fn gradient(w: usize, h: usize, alpha: u8) -> Vec<u8> {
    let mut pixels = Vec::new();
    for y in 0..h {
        for x in 0..w {
            let r = (x * 255 / w) as u8;
            let g = (y * 255 / h) as u8;
            pixels.extend_from_slice(&[r, g, 128, alpha]);
        }
    }
    pixels
}

#[test]
fn known_texts() {
    assert_eq!(base91_encode(b""), "");
    assert_eq!(base91_encode(&[0]), "AA");
    assert_eq!(base91_encode(&[255]), "/C");
    assert_eq!(base91_encode(b"test"), "fPNKd");
    assert_eq!(base91_encode(b"Hello, World!"), ">OwJh>}AQ;r@@Y?F");
    assert_eq!(base91_encode(&HASH), TEXT);
}

#[test]
fn known_texts_are_read() {
    assert_eq!(base91_decode(""), Ok(vec![]));
    assert_eq!(base91_decode("fPNKd"), Ok(b"test".to_vec()));
    assert_eq!(base91_decode(">OwJh>}AQ;r@@Y?F"), Ok(b"Hello, World!".to_vec()));
    assert_eq!(base91_decode(TEXT), Ok(HASH.to_vec()));
}

#[test]
fn texts_are_read_back() {
    for len in 0..=60usize {
        for seed in 0..20usize {
            let bytes: Vec<u8> =
                (0..len).map(|i| ((i * i * 31 + seed * 97 + i * seed) % 256) as u8).collect();
            assert_eq!(base91_decode(&base91_encode(&bytes)), Ok(bytes));
        }
        for fill in [0u8, 1, 88, 89, 127, 255] {
            let bytes = vec![fill; len];
            assert_eq!(base91_decode(&base91_encode(&bytes)), Ok(bytes));
        }
    }
}

#[test]
fn texts_need_no_escapes() {
    for seed in 0..=255u8 {
        let bytes: Vec<u8> = (0..50u8).map(|i| i.wrapping_mul(seed).wrapping_add(seed)).collect();
        for c in base91_encode(&bytes).chars() {
            assert!(c.is_ascii_graphic());
            assert!(c != '"' && c != '\\' && c != '-');
        }
    }
}

#[test]
fn texts_are_short() {
    for len in 0..=200usize {
        for fill in [0u8, 88, 255] {
            let text = base91_encode(&vec![fill; len]);
            assert!(13 * text.len() <= 16 * len + 24);
        }
    }
}

#[test]
fn other_characters_are_rejected() {
    for c in ['"', '\\', '-', ' ', '\n', '\u{7f}', '\u{e9}', '\u{1f600}'] {
        assert_eq!(base91_decode(&format!("fP{c}Kd")), Err(()));
        assert_eq!(base91_decode(&format!("{c}")), Err(()));
        assert!(thumb_hash_from_b91::<Single>(&format!("{TEXT}{c}")).is_err());
    }
}

#[test]
fn image_text_is_that_of_its_hash() {
    for (w, h, alpha) in [(32, 32, 255), (60, 20, 255), (17, 90, 200)] {
        let rgba = gradient(w, h, alpha);
        let hash = rgba_to_thumb_hash::<Single>(w, h, &rgba);
        let text = rgba_to_thumb_hash_b91::<Single>(w, h, &rgba);
        assert_eq!(text, base91_encode(&hash));
        assert_eq!(thumb_hash_from_b91::<Single>(&text), thumb_hash_to_rgba::<Single>(&hash));
        assert!(thumb_hash_from_b91::<Single>(&text).is_ok());
    }
}

#[test]
fn known_text_is_decoded() {
    let (w, h, rgba) = thumb_hash_from_b91::<Single>(TEXT).unwrap();
    assert_eq!((w, h), (23, 32));
    assert_eq!(rgba.len(), 23 * 32 * 4);
    assert_eq!((w, h, rgba), thumb_hash_to_rgba::<Single>(&HASH).unwrap());
}

#[test]
fn text_of_short_hash_is_rejected() {
    assert!(thumb_hash_from_b91::<Single>("").is_err());
    assert!(thumb_hash_from_b91::<Single>(&base91_encode(&HASH[..4])).is_err());
    assert!(thumb_hash_from_b91::<Single>(&base91_encode(&HASH[..15])).is_err());
}
