//! How much of an image its hash keeps, in single-precision floating point.
use fast_thumbhash::color::{split_channels, sum_pixels};
use fast_thumbhash::cosine::cos_tables;
use fast_thumbhash::forward::encode_channel;
use fast_thumbhash::geometry::{decoded_sides, positions};
use fast_thumbhash::parts::Parts;
use fast_thumbhash::{
    base91_decode, base91_encode, rgba_to_thumb_hash, thumb_hash_to_approximate_aspect_ratio,
    thumb_hash_to_average_rgba, thumb_hash_to_rgba, Arithmetic,
};

/// Single-precision floating point.
struct Single;

impl Arithmetic for Single {
    type Num = f32;

    fn from_int(n: u32) -> f32 {
        n as f32
    }

    fn pi() -> f32 {
        std::f32::consts::PI
    }

    fn plus(a: f32, b: f32) -> f32 {
        a + b
    }

    fn minus(a: f32, b: f32) -> f32 {
        a - b
    }

    fn times(a: f32, b: f32) -> f32 {
        a * b
    }

    fn over(a: f32, b: f32) -> f32 {
        a / b
    }

    fn cos(a: f32) -> f32 {
        a.cos()
    }

    fn abs(a: f32) -> f32 {
        a.abs()
    }

    fn larger(a: f32, b: f32) -> f32 {
        a.max(b)
    }

    fn clamp(a: f32, lo: f32, hi: f32) -> f32 {
        a.clamp(lo, hi)
    }

    fn exceeds(a: f32, b: f32) -> bool {
        a > b
    }

    fn round(a: f32) -> u32 {
        a.round() as u32
    }

    fn truncate(a: f32) -> u32 {
        a as u32
    }
}

/// A repeatable stream of bytes.
struct Noise(u64);

impl Noise {
    fn byte(&mut self) -> u8 {
        self.0 = self.0.wrapping_mul(6364136223846793005).wrapping_add(1442695040888963407);
        (self.0 >> 56) as u8
    }
}

/// A blotchy image.
fn blotches(w: usize, h: usize, transparent: bool, seed: u64) -> Vec<u8> {
    let mut noise = Noise(seed);
    let corners: Vec<[u8; 4]> =
        (0..4).map(|_| [noise.byte(), noise.byte(), noise.byte(), noise.byte()]).collect();
    let mut pixels = vec![];
    for y in 0..h {
        for x in 0..w {
            let corner = corners[2 * (2 * y / h) + 2 * x / w];
            let mut pixel = corner.map(|c| c / 2 + noise.byte() / 2);
            if !transparent {
                pixel[3] = 255;
            }
            pixels.extend_from_slice(&pixel);
        }
    }
    pixels
}

const SIZES: [(usize, usize); 8] =
    [(1, 1), (2, 3), (7, 7), (32, 32), (100, 75), (40, 90), (100, 3), (1, 60)];

#[test]
fn rounded_cosines_are_near() {
    for len in 1..=100 {
        let tables = cos_tables::<Single>(7, len);
        for c in 0..7 {
            for i in 0..len {
                let angle = std::f64::consts::PI / len as f64 * c as f64 * (i as f64 + 0.5);
                let value = tables[c][i];
                assert!((value as f64 - angle.cos()).abs() <= 31.0 / 10000.0);
                assert!(value.abs() <= 1.003);
                assert!(c > 0 || value == 1.0);
            }
        }
    }
}

#[test]
fn rounded_channel_values_are_near() {
    for transparent in [false, true] {
        let pixels = blotches(20, 30, transparent, 5);
        let sums = sum_pixels(&pixels);
        let planes = split_channels::<Single>(&pixels, &sums);
        let weights = 255.0 * sums.a as f64;
        let averages = [sums.r as f64 / weights, sums.g as f64 / weights, sums.b as f64 / weights];
        for (i, pixel) in pixels.chunks_exact(4).enumerate() {
            let a = pixel[3] as f64 / 255.0;
            let shown: Vec<f64> =
                (0..3).map(|c| averages[c] * (1.0 - a) + a * pixel[c] as f64 / 255.0).collect();
            let l = (shown[0] + shown[1] + shown[2]) / 3.0;
            let p = (shown[0] + shown[1]) / 2.0 - shown[2];
            let q = shown[0] - shown[1];
            assert!((planes.l[i] as f64 - l).abs() <= 80e-6);
            assert!((planes.p[i] as f64 - p).abs() <= 80e-6);
            assert!((planes.q[i] as f64 - q).abs() <= 80e-6);
        }
    }
}

#[test]
fn rounded_hashes_decode() {
    for (w, h) in SIZES {
        for transparent in [false, true] {
            for seed in 0..5 {
                let hash = rgba_to_thumb_hash::<Single>(w, h, &blotches(w, h, transparent, seed));
                let (ow, oh, rgba) = thumb_hash_to_rgba::<Single>(&hash).unwrap();
                assert!((5..=32).contains(&ow) && (5..=32).contains(&oh));
                assert!(transparent || rgba.chunks_exact(4).all(|pixel| pixel[3] == 255));
                for len in 0..hash.len() {
                    assert!(thumb_hash_to_rgba::<Single>(&hash[..len]).is_err());
                }
                assert_eq!(base91_decode(&base91_encode(&hash)), Ok(hash.clone()));
            }
        }
    }
}

#[test]
fn rounded_aspect_ratios_are_close() {
    for (w, h) in SIZES {
        for transparent in [false, true] {
            let hash = rgba_to_thumb_hash::<Single>(w, h, &blotches(w, h, transparent, 1));
            let other = rgba_to_thumb_hash::<Single>(h, w, &blotches(h, w, transparent, 1));
            let ratio = thumb_hash_to_approximate_aspect_ratio::<Single>(&hash).unwrap();
            let inverse = thumb_hash_to_approximate_aspect_ratio::<Single>(&other).unwrap();
            let limit = if transparent { 5.0 } else { 7.0 };
            if w >= h {
                assert!(ratio >= 1.0);
                assert!((1.0 / ratio - h as f32 / w as f32).abs() <= 1.0 / limit);
            }
            if w <= h {
                assert!(ratio <= 1.0);
                assert!((ratio - w as f32 / h as f32).abs() <= 1.0 / limit);
            }
            assert!((ratio * inverse - 1.0).abs() <= 1e-6);
        }
    }
}

#[test]
fn rounded_averages_are_close() {
    for (w, h) in SIZES {
        for transparent in [false, true] {
            for seed in 0..20 {
                let pixels = blotches(w, h, transparent, seed);
                let hash = rgba_to_thumb_hash::<Single>(w, h, &pixels);
                let (r, g, b, a) = thumb_hash_to_average_rgba::<Single>(&hash).unwrap();
                let sums = sum_pixels(&pixels);
                let weights = 255.0 * sums.a as f64;
                if sums.a > 0 {
                    assert!((r as f64 - sums.r as f64 / weights).abs() <= 0.022);
                    assert!((g as f64 - sums.g as f64 / weights).abs() <= 0.022);
                    assert!((b as f64 - sums.b as f64 / weights).abs() <= 0.02);
                }
                let alpha = sums.a as f64 / (255.0 * (w * h) as f64);
                assert!((a as f64 - alpha).abs() <= 0.034);
                assert!(transparent || a == 1.0);
            }
        }
    }
}

#[test]
fn rounded_solid_colours_are_kept() {
    let mut noise = Noise(23);
    for (w, h) in [(32, 32), (100, 75), (4, 4), (9, 50), (80, 10)] {
        for opaque in [false, true] {
            for _ in 0..20 {
                let a = if opaque { 255 } else { noise.byte() | 1 };
                let colour = [noise.byte(), noise.byte(), noise.byte(), a];
                let hash = rgba_to_thumb_hash::<Single>(w, h, &colour.repeat(w * h));
                let (_, _, rgba) = thumb_hash_to_rgba::<Single>(&hash).unwrap();
                for pixel in rgba.chunks_exact(4) {
                    assert_eq!(pixel, &rgba[..4]);
                    for c in 0..3 {
                        assert!(pixel[c].abs_diff(colour[c]) <= 6);
                    }
                    assert!(pixel[3].abs_diff(a) <= 9);
                    assert!(!opaque || pixel[3] == 255);
                }
            }
        }
    }
}

#[test]
fn rounded_coefficients_follow_the_samples() {
    let (w, h, nx, ny) = (30, 20, 7, 5);
    let mut noise = Noise(31);
    let samples: Vec<f32> = (0..w * h).map(|_| noise.byte() as f32 / 127.5 - 1.0).collect();
    let doubled: Vec<f32> = samples.iter().map(|v| 2.0 * v).collect();
    let negated: Vec<f32> = samples.iter().map(|v| -v).collect();
    let mut transposed = vec![];
    for x in 0..w {
        for y in 0..h {
            transposed.push(samples[y * w + x]);
        }
    }
    let channel = encode_channel::<Single>(&samples, w, h, nx, ny);
    let other = encode_channel::<Single>(&doubled, w, h, nx, ny);
    assert_eq!(other.dc, 2.0 * channel.dc);
    assert_eq!(other.scale, 2.0 * channel.scale);
    assert_eq!(other.ac, channel.ac);
    let other = encode_channel::<Single>(&negated, w, h, nx, ny);
    assert_eq!(other.dc, -channel.dc);
    assert_eq!(other.scale, channel.scale);
    for (u, v) in channel.ac.iter().zip(&other.ac) {
        assert!((v - (1.0 - u)).abs() <= 1e-6);
    }
    let other = encode_channel::<Single>(&transposed, h, w, ny, nx);
    assert!((other.dc - channel.dc).abs() <= 40e-6);
    assert!((other.scale - channel.scale).abs() <= 40e-6);
    assert_eq!(other.ac.len(), channel.ac.len());
    let list = positions(nx, ny);
    let other_list = positions(ny, nx);
    for (i, &(cx, cy)) in list.iter().enumerate().skip(1) {
        let j = other_list.iter().position(|&f| f == (cy, cx)).unwrap();
        let v = channel.scale * (2.0 * channel.ac[i - 1] - 1.0);
        let u = other.scale * (2.0 * other.ac[j - 1] - 1.0);
        assert!((v - u).abs() <= 60e-6);
    }
}

#[test]
fn rounded_square_channels_are_transposed() {
    let (w, h) = (17, 9);
    let mut noise = Noise(5);
    let samples: Vec<f32> = (0..w * h).map(|_| noise.byte() as f32 / 127.5 - 1.0).collect();
    let transposed: Vec<f32> =
        (0..w * h).map(|i| samples[(i % h) * w + i / h]).collect();
    for n in 3..=7 {
        let channel = encode_channel::<Single>(&samples, w, h, n, n);
        let other = encode_channel::<Single>(&transposed, h, w, n, n);
        assert_eq!(channel.ac.len(), n * (n + 1) / 2 - 1);
        assert_eq!(other.ac.len(), n * (n + 1) / 2 - 1);
        assert!((other.dc - channel.dc).abs() <= 40e-6);
        assert!((other.scale - channel.scale).abs() <= 40e-6);
    }
}

/// The cosine that completes `c` half turns over `len` samples, in the middle of the sample `i`.
fn wave(len: usize, c: usize, i: usize) -> f64 {
    (std::f64::consts::PI / len as f64 * c as f64 * (i as f64 + 0.5)).cos()
}

#[test]
fn rounded_coefficients_are_near() {
    let (w, h, nx, ny) = (100, 60, 7, 7);
    let mut noise = Noise(3);
    let samples: Vec<f32> = (0..w * h).map(|_| noise.byte() as f32 / 127.5 - 1.0).collect();
    let channel = encode_channel::<Single>(&samples, w, h, nx, ny);
    for (i, &(cx, cy)) in positions(nx, ny).iter().enumerate() {
        let mut exact = 0.0;
        for y in 0..h {
            for x in 0..w {
                exact += samples[y * w + x] as f64 * wave(w, cx, x) * wave(h, cy, y);
            }
        }
        exact /= (w * h) as f64;
        let value = if i == 0 {
            channel.dc
        } else {
            channel.scale * (2.0 * channel.ac[i - 1] - 1.0)
        };
        assert!((value as f64 - exact).abs() <= 0.007);
    }
}

#[test]
fn rounded_hashes_are_read_back() {
    for (w, h) in SIZES {
        for transparent in [false, true] {
            for seed in 0..5 {
                let hash = rgba_to_thumb_hash::<Single>(w, h, &blotches(w, h, transparent, seed));
                let parts = Parts::parse(&hash).unwrap_or_else(|_| panic!("complete hash"));
                assert!(parts.nibbles.iter().all(|&nibble| nibble < 16));
                assert_eq!(parts.to_bytes(), hash);
            }
        }
    }
}

#[test]
fn rounded_averages_are_recorded() {
    for (w, h) in SIZES {
        for transparent in [false, true] {
            let pixels = blotches(w, h, transparent, 9);
            let sums = sum_pixels(&pixels);
            let weights = 255.0 * sums.a as f64;
            let (r, g, b) =
                (sums.r as f64 / weights, sums.g as f64 / weights, sums.b as f64 / weights);
            let hash = rgba_to_thumb_hash::<Single>(w, h, &pixels);
            let parts = Parts::parse(&hash).unwrap_or_else(|_| panic!("complete hash"));
            let header = parts.header;
            assert!((header.l_dc as f64 - 21.0 * (r + g + b)).abs() <= 0.51);
            assert!((header.p_dc as f64 - 31.5 * (1.0 + (r + g) / 2.0 - b)).abs() <= 0.51);
            assert!((header.q_dc as f64 - 31.5 * (1.0 + r - g)).abs() <= 0.51);
            if let Some((dc, _)) = parts.alpha {
                let mean = sums.a as f64 / (255.0 * (w * h) as f64);
                assert!((dc as f64 - 15.0 * mean).abs() <= 0.51);
            }
        }
    }
}

#[test]
fn rounded_averages_are_in_range() {
    let mut noise = Noise(77);
    for _ in 0..2000 {
        let hash: Vec<u8> = (0..6).map(|_| noise.byte()).collect();
        let (r, g, b, a) = thumb_hash_to_average_rgba::<Single>(&hash).unwrap();
        for v in [r, g, b, a] {
            assert!((0.0..=1.0).contains(&v));
        }
    }
}

#[test]
fn rounded_pixels_are_near_the_sums() {
    for (w, h) in [(32, 32), (20, 15), (11, 23)] {
        for transparent in [false, true] {
            let hash = rgba_to_thumb_hash::<Single>(w, h, &blotches(w, h, transparent, 4));
            let parts = Parts::parse(&hash).unwrap_or_else(|_| panic!("complete hash"));
            let header = &parts.header;
            let (nx, ny) = header.used_components();
            let (lx, ly) = header.recorded_components();
            let (ow, oh) = decoded_sides(lx, ly);
            let luma = positions(nx, ny).len() - 1;
            let sum = |start: usize, dc: f64, scale: f64, nx, ny, x, y| {
                let mut value = dc;
                for (j, &(cx, cy)) in positions(nx, ny).iter().skip(1).enumerate() {
                    let level = (parts.nibbles[start + j] as f64 / 7.5 - 1.0) * scale;
                    value += 2.0 * level * wave(ow, cx, x) * wave(oh, cy, y);
                }
                value
            };
            let (dw, dh, rgba) = thumb_hash_to_rgba::<Single>(&hash).unwrap();
            assert_eq!((dw, dh), (ow, oh));
            for y in 0..oh {
                for x in 0..ow {
                    let l_dc = header.l_dc as f64 / 63.0;
                    let p_dc = header.p_dc as f64 / 31.5 - 1.0;
                    let q_dc = header.q_dc as f64 / 31.5 - 1.0;
                    let l = sum(0, l_dc, header.l_scale as f64 / 31.0, nx, ny, x, y);
                    let p = sum(luma, p_dc, header.p_scale as f64 / 63.0 * 1.25, 3, 3, x, y);
                    let q = sum(luma + 5, q_dc, header.q_scale as f64 / 63.0 * 1.25, 3, 3, x, y);
                    let a = match parts.alpha {
                        Some((dc, scale)) => {
                            sum(luma + 10, dc as f64 / 15.0, scale as f64 / 15.0, 5, 5, x, y)
                        }
                        None => 1.0,
                    };
                    let exact = [
                        l + p / 3.0 + q / 2.0,
                        l + p / 3.0 - q / 2.0,
                        l - 2.0 / 3.0 * p,
                        a,
                    ];
                    for c in 0..4 {
                        let byte = (255.0 * exact[c].clamp(0.0, 1.0)) as u8;
                        let limit = if c < 3 { 11 } else { 5 };
                        assert!(rgba[4 * (y * ow + x) + c].abs_diff(byte) <= limit);
                    }
                }
            }
        }
    }
}

/// The channels of an image over its average colour.
fn shown(pixels: &[u8]) -> [Vec<f64>; 4] {
    let sums = sum_pixels(pixels);
    let weights = 255.0 * sums.a as f64;
    let averages = [sums.r as f64 / weights, sums.g as f64 / weights, sums.b as f64 / weights];
    let mut planes = [vec![], vec![], vec![], vec![]];
    for pixel in pixels.chunks_exact(4) {
        let a = pixel[3] as f64 / 255.0;
        let c: Vec<f64> =
            (0..3).map(|i| averages[i] * (1.0 - a) + a * pixel[i] as f64 / 255.0).collect();
        planes[0].push((c[0] + c[1] + c[2]) / 3.0);
        planes[1].push((c[0] + c[1]) / 2.0 - c[2]);
        planes[2].push(c[0] - c[1]);
        planes[3].push(a);
    }
    planes
}

#[test]
fn rounded_hashes_are_near_the_transforms() {
    for (w, h) in [(7, 7), (20, 15), (11, 23)] {
        for transparent in [false, true] {
            let pixels = blotches(w, h, transparent, 6);
            let hash = rgba_to_thumb_hash::<Single>(w, h, &pixels);
            let parts = Parts::parse(&hash).unwrap_or_else(|_| panic!("complete hash"));
            let header = &parts.header;
            let (nx, ny) = header.used_components();
            let mut channels = vec![
                (nx, ny, header.l_scale as f64, 31.0),
                (3, 3, header.p_scale as f64, 63.0),
                (3, 3, header.q_scale as f64, 63.0),
            ];
            if let Some((_, scale)) = parts.alpha {
                channels.push((5, 5, scale as f64, 15.0));
            }
            let mut start = 0;
            for (plane, (nx, ny, level, steps)) in shown(&pixels).iter().zip(channels) {
                let mut values = vec![];
                for &(cx, cy) in positions(nx, ny).iter().skip(1) {
                    let mut sum = 0.0;
                    for y in 0..h {
                        for x in 0..w {
                            sum += plane[y * w + x] * wave(w, cx, x) * wave(h, cy, y);
                        }
                    }
                    values.push(sum / (w * h) as f64);
                }
                let peak = values.iter().fold(0.0, |peak: f64, v| peak.max(v.abs()));
                assert!((level - (steps * peak).round()).abs() <= 1.0);
                for (j, v) in values.iter().enumerate() {
                    let exact = (15.0 * (0.5 + 0.5 / peak * v)).round();
                    let nibble = parts.nibbles[start + j] as f64;
                    assert!(peak * (nibble - exact).abs() <= 1.02 * peak + 0.11);
                }
                start += values.len();
            }
        }
    }
}
