//! How much of an image its hash keeps, in double-precision floating point.
use fast_thumbhash::color::{split_channels, sum_pixels};
use fast_thumbhash::forward::encode_channel;
use fast_thumbhash::geometry::positions;
use fast_thumbhash::header::Header;
use fast_thumbhash::inverse::dequantize_ac;
use fast_thumbhash::parts::Parts;
use fast_thumbhash::{
    rgba_to_thumb_hash, thumb_hash_to_approximate_aspect_ratio, thumb_hash_to_average_rgba,
    thumb_hash_to_rgba, Arithmetic,
};

/// Double-precision floating point.
struct Double;

impl Arithmetic for Double {
    type Num = f64;

    fn from_int(n: u32) -> f64 {
        n as f64
    }

    fn pi() -> f64 {
        std::f64::consts::PI
    }

    fn plus(a: f64, b: f64) -> f64 {
        a + b
    }

    fn minus(a: f64, b: f64) -> f64 {
        a - b
    }

    fn times(a: f64, b: f64) -> f64 {
        a * b
    }

    fn over(a: f64, b: f64) -> f64 {
        a / b
    }

    fn cos(a: f64) -> f64 {
        a.cos()
    }

    fn abs(a: f64) -> f64 {
        a.abs()
    }

    fn larger(a: f64, b: f64) -> f64 {
        a.max(b)
    }

    fn clamp(a: f64, lo: f64, hi: f64) -> f64 {
        a.clamp(lo, hi)
    }

    fn exceeds(a: f64, b: f64) -> bool {
        a > b
    }

    fn round(a: f64) -> u32 {
        a.round() as u32
    }

    fn truncate(a: f64) -> u32 {
        a as u32
    }
}

/// A repeatable stream of bytes.
struct Noise(u64);

impl Noise {
    fn byte(&mut self) -> u8 {
        self.0 = self.0.wrapping_mul(6364136223846793005).wrapping_add(1442695040888963407);
        (self.0 >> 56) as u8
    }
}

/// A blotchy image.
fn blotches(w: usize, h: usize, transparent: bool, seed: u64) -> Vec<u8> {
    let mut noise = Noise(seed);
    let corners: Vec<[u8; 4]> =
        (0..4).map(|_| [noise.byte(), noise.byte(), noise.byte(), noise.byte()]).collect();
    let mut pixels = vec![];
    for y in 0..h {
        for x in 0..w {
            let corner = corners[2 * (2 * y / h) + 2 * x / w];
            let mut pixel = corner.map(|c| c / 2 + noise.byte() / 2);
            if !transparent {
                pixel[3] = 255;
            }
            pixels.extend_from_slice(&pixel);
        }
    }
    pixels
}

const SIZES: [(usize, usize); 8] =
    [(1, 1), (2, 3), (7, 7), (32, 32), (100, 75), (40, 90), (100, 3), (1, 60)];

#[test]
fn hashes_of_all_images_decode() {
    for (w, h) in SIZES {
        for transparent in [false, true] {
            for seed in 0..5 {
                let hash = rgba_to_thumb_hash::<Double>(w, h, &blotches(w, h, transparent, seed));
                assert!((13..=25).contains(&hash.len()));
                let (ow, oh, rgba) = thumb_hash_to_rgba::<Double>(&hash).unwrap();
                assert_eq!(ow.max(oh), 32);
                assert!(ow > 0 && oh > 0);
                assert!(w < h || ow == 32);
                assert!(h < w || oh == 32);
                assert_eq!(rgba.len(), ow * oh * 4);
                assert!(transparent || rgba.chunks_exact(4).all(|pixel| pixel[3] == 255));
                let ratio = thumb_hash_to_approximate_aspect_ratio::<Double>(&hash).unwrap();
                assert!(w < h || ratio >= 1.0);
                assert!(h < w || ratio <= 1.0);
                let header = Header::parse(&hash).unwrap();
                assert_eq!(header.has_alpha, transparent);
                assert_eq!(header.is_landscape, w > h);
            }
        }
    }
}

#[test]
fn average_colours_are_close() {
    for (w, h) in SIZES {
        for transparent in [false, true] {
            for seed in 0..20 {
                let pixels = blotches(w, h, transparent, seed);
                let hash = rgba_to_thumb_hash::<Double>(w, h, &pixels);
                let (r, g, b, a) = thumb_hash_to_average_rgba::<Double>(&hash).unwrap();
                let sums = sum_pixels(&pixels);
                let weights = 255.0 * sums.a as f64;
                if sums.a > 0 {
                    assert!((r - sums.r as f64 / weights).abs() <= 4.0 / 189.0 + 1e-9);
                    assert!((g - sums.g as f64 / weights).abs() <= 4.0 / 189.0 + 1e-9);
                    assert!((b - sums.b as f64 / weights).abs() <= 1.0 / 54.0 + 1e-9);
                }
                let alpha = sums.a as f64 / (255.0 * (w * h) as f64);
                assert!((a - alpha).abs() <= 1.0 / 30.0 + 1e-9);
                assert!(transparent || a == 1.0);
            }
        }
    }
}

#[test]
fn luminance_coefficients_are_close() {
    for (w, h) in [(7, 7), (32, 32), (100, 75), (40, 90), (100, 3)] {
        let pixels = blotches(w, h, false, 3);
        let hash = rgba_to_thumb_hash::<Double>(w, h, &pixels);
        let parts = Parts::parse(&hash).unwrap_or_else(|_| panic!("complete hash"));
        let (nx, ny) = parts.header.used_components();
        let planes = split_channels::<Double>(&pixels, &sum_pixels(&pixels));
        let channel = encode_channel::<Double>(&planes.l, w, h, nx, ny);
        let scale = parts.header.l_scale as f64 / 31.0;
        let read = dequantize_ac::<Double>(&parts.nibbles, 0, channel.ac.len(), scale);
        for (v, u) in read.iter().zip(&channel.ac) {
            let original = (2.0 * u - 1.0) * channel.scale;
            assert!((v - original).abs() <= 77.0 / 930.0 + 1e-9);
        }
    }
}

#[test]
fn solid_colours_are_kept() {
    let mut noise = Noise(11);
    for (w, h) in [(32, 32), (100, 75), (4, 4), (9, 50), (80, 10)] {
        for _ in 0..20 {
            let colour = [noise.byte(), noise.byte(), noise.byte(), noise.byte() | 1];
            let hash = rgba_to_thumb_hash::<Double>(w, h, &colour.repeat(w * h));
            let (_, _, rgba) = thumb_hash_to_rgba::<Double>(&hash).unwrap();
            for pixel in rgba.chunks_exact(4) {
                assert_eq!(pixel, &rgba[..4]);
                for c in 0..3 {
                    assert!(pixel[c].abs_diff(colour[c]) <= 6);
                }
                assert!(pixel[3].abs_diff(colour[3]) <= 9);
            }
        }
    }
}

#[test]
fn single_grey_pixel_does_not_decode_to_one_colour() {
    let hash = rgba_to_thumb_hash::<Double>(1, 1, &[42, 42, 42, 255]);
    let (_, _, rgba) = thumb_hash_to_rgba::<Double>(&hash).unwrap();
    assert!(rgba.chunks_exact(4).any(|pixel| pixel != &rgba[..4]));
}

/// The cosine that completes `c` half turns over `len` samples, in the middle of the sample `i`.
fn wave(len: usize, c: usize, i: usize) -> f64 {
    (std::f64::consts::PI / len as f64 * c as f64 * (i as f64 + 0.5)).cos()
}

/// The two-dimensional transform of `samples`.
fn transform(samples: &[f64], w: usize, h: usize, cx: usize, cy: usize) -> f64 {
    let mut sum = 0.0;
    for y in 0..h {
        for x in 0..w {
            sum += samples[y * w + x] * wave(w, cx, x) * wave(h, cy, y);
        }
    }
    sum / (w * h) as f64
}

/// The channels of an image over its average colour.
fn shown(pixels: &[u8]) -> [Vec<f64>; 4] {
    let sums = sum_pixels(pixels);
    let weights = 255.0 * sums.a as f64;
    let averages = [sums.r as f64 / weights, sums.g as f64 / weights, sums.b as f64 / weights];
    let mut planes = [vec![], vec![], vec![], vec![]];
    for pixel in pixels.chunks_exact(4) {
        let a = pixel[3] as f64 / 255.0;
        let c: Vec<f64> =
            (0..3).map(|i| averages[i] * (1.0 - a) + a * pixel[i] as f64 / 255.0).collect();
        planes[0].push((c[0] + c[1] + c[2]) / 3.0);
        planes[1].push((c[0] + c[1]) / 2.0 - c[2]);
        planes[2].push(c[0] - c[1]);
        planes[3].push(a);
    }
    planes
}

/// The average, the scale and the levels of a channel with `nx` by `ny` components.
fn channel_formula(
    samples: &[f64],
    w: usize,
    h: usize,
    nx: usize,
    ny: usize,
) -> (f64, f64, Vec<u8>) {
    let values: Vec<f64> = positions(nx, ny)
        .iter()
        .skip(1)
        .map(|&(cx, cy)| transform(samples, w, h, cx, cy))
        .collect();
    let peak = values.iter().fold(0.0, |peak: f64, v| peak.max(v.abs()));
    let levels = values.iter().map(|v| (15.0 * (0.5 + 0.5 / peak * v)).round() as u8).collect();
    (transform(samples, w, h, 0, 0), peak, levels)
}

#[test]
fn hashes_are_quantized_transforms() {
    for (w, h) in [(7, 7), (32, 32), (20, 15), (11, 23), (30, 3)] {
        for transparent in [false, true] {
            let pixels = blotches(w, h, transparent, 7);
            let hash = rgba_to_thumb_hash::<Double>(w, h, &pixels);
            let parts = Parts::parse(&hash).unwrap_or_else(|_| panic!("complete hash"));
            let (nx, ny) = parts.header.used_components();
            let [l, p, q, a] = shown(&pixels);
            let (l_dc, l_scale, mut nibbles) = channel_formula(&l, w, h, nx, ny);
            let (p_dc, p_scale, p_levels) = channel_formula(&p, w, h, 3, 3);
            let (q_dc, q_scale, q_levels) = channel_formula(&q, w, h, 3, 3);
            nibbles.extend(p_levels);
            nibbles.extend(q_levels);
            assert_eq!(parts.header.l_dc, (63.0 * l_dc).round() as u32);
            assert_eq!(parts.header.p_dc, (31.5 + 31.5 * p_dc).round() as u32);
            assert_eq!(parts.header.q_dc, (31.5 + 31.5 * q_dc).round() as u32);
            assert_eq!(parts.header.l_scale, (31.0 * l_scale).round() as u32);
            assert_eq!(parts.header.p_scale, (63.0 * p_scale).round() as u16);
            assert_eq!(parts.header.q_scale, (63.0 * q_scale).round() as u16);
            if transparent {
                let (a_dc, a_scale, a_levels) = channel_formula(&a, w, h, 5, 5);
                nibbles.extend(a_levels);
                let expected = ((15.0 * a_dc).round() as u8, (15.0 * a_scale).round() as u8);
                assert_eq!(parts.alpha, Some(expected));
            } else {
                assert_eq!(parts.alpha, None);
            }
            assert_eq!(parts.nibbles, nibbles);
        }
    }
}
