//! The codec in single-precision floating point, alone and against the `thumbhash` crate.
use fast_thumbhash::{
    rgba_to_thumb_hash, thumb_hash_to_approximate_aspect_ratio, thumb_hash_to_average_rgba,
    thumb_hash_to_rgba, Arithmetic,
};

/// Single-precision floating point.
struct Single;

impl Arithmetic for Single {
    type Num = f32;

    fn from_int(n: u32) -> f32 {
        n as f32
    }

    fn pi() -> f32 {
        std::f32::consts::PI
    }

    fn plus(a: f32, b: f32) -> f32 {
        a + b
    }

    fn minus(a: f32, b: f32) -> f32 {
        a - b
    }

    fn times(a: f32, b: f32) -> f32 {
        a * b
    }

    fn over(a: f32, b: f32) -> f32 {
        a / b
    }

    fn cos(a: f32) -> f32 {
        a.cos()
    }

    fn abs(a: f32) -> f32 {
        a.abs()
    }

    fn larger(a: f32, b: f32) -> f32 {
        a.max(b)
    }

    fn clamp(a: f32, lo: f32, hi: f32) -> f32 {
        a.clamp(lo, hi)
    }

    fn exceeds(a: f32, b: f32) -> bool {
        a > b
    }

    fn round(a: f32) -> u32 {
        a.round() as u32
    }

    fn truncate(a: f32) -> u32 {
        a as u32
    }
}

/// A solid-colour opaque image.
fn solid_rgba(w: usize, h: usize, r: u8, g: u8, b: u8) -> Vec<u8> {
    transparent_rgba(w, h, r, g, b, 255)
}

/// A solid-colour image.
fn transparent_rgba(w: usize, h: usize, r: u8, g: u8, b: u8, a: u8) -> Vec<u8> {
    let mut pixels = Vec::with_capacity(w * h * 4);
    for _ in 0..w * h {
        pixels.extend_from_slice(&[r, g, b, a]);
    }
    pixels
}

/// The mean absolute difference between two images of the same size.
fn mean_pixel_error(a: &[u8], b: &[u8]) -> f32 {
    assert_eq!(a.len(), b.len());
    let sum: u64 =
        a.iter().zip(b.iter()).map(|(&x, &y)| (x as i32 - y as i32).unsigned_abs() as u64).sum();
    sum as f32 / a.len() as f32
}

#[test]
fn encode_decode_roundtrip_opaque() {
    let pixels = solid_rgba(32, 32, 200, 100, 50);
    let hash = rgba_to_thumb_hash::<Single>(32, 32, &pixels);
    assert!(hash.len() >= 5);

    let (w, h, rgba) = thumb_hash_to_rgba::<Single>(&hash).unwrap();
    assert!(w > 0 && h > 0);
    assert_eq!(rgba.len(), w * h * 4);

    for chunk in rgba.chunks_exact(4) {
        assert_eq!(chunk[3], 255);
    }
}

#[test]
fn encode_decode_roundtrip_transparent() {
    let pixels = transparent_rgba(20, 30, 100, 200, 50, 128);
    let hash = rgba_to_thumb_hash::<Single>(20, 30, &pixels);
    assert!(hash.len() >= 5);

    let (w, h, rgba) = thumb_hash_to_rgba::<Single>(&hash).unwrap();
    assert!(w > 0 && h > 0);
    assert_eq!(rgba.len(), w * h * 4);
}

#[test]
fn average_rgba_opaque() {
    let pixels = solid_rgba(16, 16, 255, 0, 0);
    let hash = rgba_to_thumb_hash::<Single>(16, 16, &pixels);
    let (r, g, b, a) = thumb_hash_to_average_rgba::<Single>(&hash).unwrap();
    assert!(r > 0.7, "expected r > 0.7, got {r}");
    assert!(g < 0.3, "expected g < 0.3, got {g}");
    assert!(b < 0.3, "expected b < 0.3, got {b}");
    assert!((a - 1.0).abs() < 0.01, "expected a ~1.0, got {a}");
}

#[test]
fn aspect_ratio_landscape() {
    let pixels = solid_rgba(80, 40, 128, 128, 128);
    let hash = rgba_to_thumb_hash::<Single>(80, 40, &pixels);
    let ratio = thumb_hash_to_approximate_aspect_ratio::<Single>(&hash).unwrap();
    assert!(ratio > 1.0, "landscape should have ratio > 1.0, got {ratio}");
}

#[test]
fn aspect_ratio_portrait() {
    let pixels = solid_rgba(30, 60, 128, 128, 128);
    let hash = rgba_to_thumb_hash::<Single>(30, 60, &pixels);
    let ratio = thumb_hash_to_approximate_aspect_ratio::<Single>(&hash).unwrap();
    assert!(ratio < 1.0, "portrait should have ratio < 1.0, got {ratio}");
}

#[test]
fn decode_rejects_short_hash() {
    assert!(thumb_hash_to_rgba::<Single>(&[0, 1, 2, 3]).is_err());
    assert!(thumb_hash_to_average_rgba::<Single>(&[0, 1]).is_err());
    assert!(thumb_hash_to_approximate_aspect_ratio::<Single>(&[]).is_err());
}

#[test]
fn minimum_size_image() {
    let pixels = solid_rgba(1, 1, 42, 42, 42);
    let hash = rgba_to_thumb_hash::<Single>(1, 1, &pixels);
    assert!(hash.len() >= 5);
    let (w, h, rgba) = thumb_hash_to_rgba::<Single>(&hash).unwrap();
    assert!(w > 0 && h > 0);
    assert_eq!(rgba.len(), w * h * 4);
}

#[test]
fn cross_compat_encoder_perceptual() {
    for (w, h, r, g, b) in
        [(32, 32, 100, 150, 200), (80, 40, 255, 0, 0), (20, 60, 0, 200, 100)]
    {
        let pixels = solid_rgba(w, h, r, g, b);
        let our_hash = rgba_to_thumb_hash::<Single>(w, h, &pixels);
        let upstream_hash = thumbhash::rgba_to_thumb_hash(w, h, &pixels);

        assert_eq!(our_hash.len(), upstream_hash.len(), "hash length mismatch for {w}x{h}");

        let (w1, h1, rgba1) = thumb_hash_to_rgba::<Single>(&our_hash).unwrap();
        let (w2, h2, rgba2) = thumbhash::thumb_hash_to_rgba(&upstream_hash).unwrap();
        assert_eq!((w1, h1), (w2, h2), "decoded dimensions mismatch for {w}x{h}");

        let err = mean_pixel_error(&rgba1, &rgba2);
        assert!(err < 3.0, "mean pixel error too high for {w}x{h}: {err}");
    }
}

#[test]
fn cross_compat_decoder_given_upstream_hash() {
    for (w, h, r, g, b) in [(24, 48, 200, 50, 100), (50, 50, 128, 128, 128)] {
        let pixels = solid_rgba(w, h, r, g, b);
        let hash = thumbhash::rgba_to_thumb_hash(w, h, &pixels);

        let (w1, h1, rgba1) = thumb_hash_to_rgba::<Single>(&hash).unwrap();
        let (w2, h2, rgba2) = thumbhash::thumb_hash_to_rgba(&hash).unwrap();

        assert_eq!(w1, w2);
        assert_eq!(h1, h2);
        assert_eq!(rgba1, rgba2, "decoder output must match upstream for same hash");
    }
}

#[test]
fn cross_compat_transparent_perceptual() {
    let pixels = transparent_rgba(40, 25, 255, 128, 0, 100);
    let our_hash = rgba_to_thumb_hash::<Single>(40, 25, &pixels);
    let upstream_hash = thumbhash::rgba_to_thumb_hash(40, 25, &pixels);

    assert_eq!(our_hash.len(), upstream_hash.len());

    let (w1, h1, rgba1) = thumb_hash_to_rgba::<Single>(&our_hash).unwrap();
    let (w2, h2, rgba2) = thumbhash::thumb_hash_to_rgba(&upstream_hash).unwrap();
    assert_eq!((w1, h1), (w2, h2));

    let err = mean_pixel_error(&rgba1, &rgba2);
    assert!(err < 3.0, "transparent mean pixel error too high: {err}");
}

#[test]
fn cross_compat_average_rgba() {
    for (w, h, r, g, b) in [(50, 50, 80, 160, 240), (32, 32, 255, 0, 0)] {
        let pixels = solid_rgba(w, h, r, g, b);
        let our_hash = rgba_to_thumb_hash::<Single>(w, h, &pixels);

        let (r1, g1, b1, a1) = thumb_hash_to_average_rgba::<Single>(&our_hash).unwrap();
        let (r2, g2, b2, a2) = thumbhash::thumb_hash_to_average_rgba(&our_hash).unwrap();

        let eps = 0.02;
        assert!((r1 - r2).abs() < eps, "r mismatch: {r1} vs {r2}");
        assert!((g1 - g2).abs() < eps, "g mismatch: {g1} vs {g2}");
        assert!((b1 - b2).abs() < eps, "b mismatch: {b1} vs {b2}");
        assert!((a1 - a2).abs() < eps, "a mismatch: {a1} vs {a2}");
    }
}

#[test]
fn cross_compat_aspect_ratio() {
    for (w, h) in [(80, 40), (30, 60), (50, 50), (100, 10)] {
        let pixels = solid_rgba(w, h, 128, 128, 128);
        let hash = rgba_to_thumb_hash::<Single>(w, h, &pixels);

        let ours = thumb_hash_to_approximate_aspect_ratio::<Single>(&hash).unwrap();
        let theirs = thumbhash::thumb_hash_to_approximate_aspect_ratio(&hash).unwrap();

        assert!(
            (ours - theirs).abs() < 0.01,
            "aspect ratio mismatch for {w}x{h}: {ours} vs {theirs}"
        );
    }
}
