//! The transforms and the colour conversions, in single-precision floating point.
use fast_thumbhash::arithmetic::ratio;
use fast_thumbhash::color::{clamp_unit, component_byte, convert_lpq, split_channels, sum_pixels};
use fast_thumbhash::cosine::{cos_tables, fill_cos_table};
use fast_thumbhash::forward::encode_channel;
use fast_thumbhash::geometry::positions;
use fast_thumbhash::inverse::{combine, dequantize_ac, sample_row};
use fast_thumbhash::{
    rgba_to_thumb_hash, thumb_hash_to_approximate_aspect_ratio, thumb_hash_to_average_rgba,
    thumb_hash_to_rgba, Arithmetic,
};

/// Single-precision floating point.
struct Single;

impl Arithmetic for Single {
    type Num = f32;

    fn from_int(n: u32) -> f32 {
        n as f32
    }

    fn pi() -> f32 {
        std::f32::consts::PI
    }

    fn plus(a: f32, b: f32) -> f32 {
        a + b
    }

    fn minus(a: f32, b: f32) -> f32 {
        a - b
    }

    fn times(a: f32, b: f32) -> f32 {
        a * b
    }

    fn over(a: f32, b: f32) -> f32 {
        a / b
    }

    fn cos(a: f32) -> f32 {
        a.cos()
    }

    fn abs(a: f32) -> f32 {
        a.abs()
    }

    fn larger(a: f32, b: f32) -> f32 {
        a.max(b)
    }

    fn clamp(a: f32, lo: f32, hi: f32) -> f32 {
        a.clamp(lo, hi)
    }

    fn exceeds(a: f32, b: f32) -> bool {
        a > b
    }

    fn round(a: f32) -> u32 {
        a.round() as u32
    }

    fn truncate(a: f32) -> u32 {
        a as u32
    }
}

fn close(a: f32, b: f32) -> bool {
    (a - b).abs() < 1e-4
}

/// A hash with the given header words, no details and enough bytes for any header.
fn plain_hash(low: u32, high: u16) -> Vec<u8> {
    let [a, b, c, _] = low.to_le_bytes();
    let [d, e] = high.to_le_bytes();
    let mut hash = vec![a, b, c, d, e];
    hash.extend_from_slice(&[0x77; 25]);
    hash
}

#[test]
fn ratios() {
    assert_eq!(ratio::<Single>(63, 2), 31.5);
    assert_eq!(ratio::<Single>(1, 255), 1.0 / 255.0);
}

#[test]
fn recurrence_matches_cosines() {
    for len in 0..=100 {
        for c in 0..7 {
            let freq = std::f32::consts::PI / len as f32 * c as f32;
            let table = fill_cos_table::<Single>(freq, len);
            assert_eq!(table.len(), len);
            for (i, &entry) in table.iter().enumerate() {
                assert!((entry - (freq * (i as f32 + 0.5)).cos()).abs() < 1e-3);
            }
        }
    }
}

#[test]
fn cosine_tables_have_a_row_for_each_frequency() {
    let tables = cos_tables::<Single>(3, 2);
    assert_eq!(tables.len(), 3);
    let half = std::f32::consts::FRAC_1_SQRT_2;
    let expected = [[1.0, 1.0], [half, -half], [0.0, 0.0]];
    for (row, want) in tables.iter().zip(expected) {
        assert_eq!(row.len(), 2);
        assert!(close(row[0], want[0]) && close(row[1], want[1]));
    }
}

#[test]
fn channel_of_two_samples() {
    let channel = encode_channel::<Single>(&vec![1.0, 0.0], 2, 1, 2, 1);
    assert_eq!(channel.dc, 0.5);
    assert!(close(channel.scale, 0.353_553_4));
    assert_eq!(channel.ac.len(), 1);
    assert!(close(channel.ac[0], 1.0));
    let negative = encode_channel::<Single>(&vec![0.0, 1.0], 2, 1, 2, 1);
    assert!(close(negative.ac[0], 0.0));
}

#[test]
fn channel_matches_the_two_dimensional_sum() {
    let (w, h) = (9usize, 6usize);
    let samples: Vec<f32> = (0..w * h).map(|i| ((i * 37 + i * i) % 101) as f32 / 101.0).collect();
    let channel = encode_channel::<Single>(&samples, w, h, 5, 4);
    let list = positions(5, 4);
    let mut values = vec![];
    for &(cx, cy) in &list {
        let mut sum = 0.0f64;
        for y in 0..h {
            for x in 0..w {
                let fx = std::f64::consts::PI / w as f64 * cx as f64 * (x as f64 + 0.5);
                let fy = std::f64::consts::PI / h as f64 * cy as f64 * (y as f64 + 0.5);
                sum += samples[y * w + x] as f64 * fx.cos() * fy.cos();
            }
        }
        values.push((sum / (w * h) as f64) as f32);
    }
    assert!(close(channel.dc, values[0]));
    let scale = values[1..].iter().fold(0.0f32, |m, v| m.max(v.abs()));
    assert!(close(channel.scale, scale));
    assert_eq!(channel.ac.len(), values.len() - 1);
    for (&ac, &value) in channel.ac.iter().zip(&values[1..]) {
        assert!(close(ac, 0.5 + 0.5 / scale * value));
    }
}

#[test]
fn channel_without_details_is_not_normalized() {
    let channel = encode_channel::<Single>(&vec![0.0; 12], 4, 3, 3, 3);
    assert_eq!(channel.dc, 0.0);
    assert_eq!(channel.scale, 0.0);
    assert_eq!(channel.ac, vec![0.0; 5]);
}

#[test]
fn nibbles_stand_for_parts_of_the_scale() {
    let ac = dequantize_ac::<Single>(&vec![9, 0, 15, 3], 1, 3, 0.5);
    assert_eq!(ac, vec![-0.5, 0.5, (3.0 / 7.5 - 1.0) * 0.5]);
}

#[test]
fn samples_match_the_two_dimensional_sum() {
    let (w, h, nx, ny) = (8usize, 5usize, 4usize, 3usize);
    let list = positions(nx, ny);
    let ac: Vec<f32> = (1..list.len()).map(|j| 0.1 - 0.03 * j as f32).collect();
    let table_x = cos_tables::<Single>(nx, w);
    let table_y = cos_tables::<Single>(ny, h);
    let rows = combine::<Single>(&list, &ac, &table_x, w, ny);
    for y in 0..h {
        let row = sample_row::<Single>(0.25, &rows, &table_y, w, h, y);
        assert_eq!(row.len(), w);
        for x in 0..w {
            let mut expected = 0.25f64;
            for j in 1..list.len() {
                let (cx, cy) = list[j];
                let fx = std::f64::consts::PI / w as f64 * cx as f64 * (x as f64 + 0.5);
                let fy = std::f64::consts::PI / h as f64 * cy as f64 * (y as f64 + 0.5);
                expected += 2.0 * ac[j - 1] as f64 * fx.cos() * fy.cos();
            }
            assert!(close(row[x], expected as f32));
        }
    }
}

#[test]
fn opaque_pixels_are_split() {
    let rgba = [255, 0, 0, 255, 0, 255, 0, 255, 0, 0, 255, 255, 255, 255, 255, 255];
    let planes = split_channels::<Single>(&rgba, &sum_pixels(&rgba));
    let third = 1.0 / 3.0;
    let expected = [
        (planes.l, [third, third, third, 1.0]),
        (planes.p, [0.5, 0.5, -1.0, 0.0]),
        (planes.q, [1.0, -1.0, 0.0, 0.0]),
        (planes.a, [1.0, 1.0, 1.0, 1.0]),
    ];
    for (plane, want) in expected {
        assert_eq!(plane.len(), 4);
        for (&v, w) in plane.iter().zip(want) {
            assert!(close(v, w));
        }
    }
}

#[test]
fn transparent_pixels_take_the_average_colour() {
    let rgba = [255, 0, 0, 255, 0, 0, 255, 0];
    let planes = split_channels::<Single>(&rgba, &sum_pixels(&rgba));
    for i in 0..2 {
        assert!(close(planes.l[i], 1.0 / 3.0));
        assert!(close(planes.p[i], 0.5));
        assert!(close(planes.q[i], 1.0));
    }
    assert_eq!(planes.a, vec![1.0, 0.0]);
}

#[test]
fn wholly_transparent_image_is_black() {
    let rgba = [9, 99, 200, 0];
    let planes = split_channels::<Single>(&rgba, &sum_pixels(&rgba));
    assert_eq!((planes.l[0], planes.p[0], planes.q[0], planes.a[0]), (0.0, 0.0, 0.0, 0.0));
}

#[test]
fn colours_are_converted_back() {
    for (r, g, b) in [(0.2f32, 0.7f32, 0.4f32), (1.0, 0.0, 0.0), (0.0, 0.0, 1.0)] {
        let v = convert_lpq::<Single>((r + g + b) / 3.0, (r + g) / 2.0 - b, r - g);
        assert!(close(v.r, r) && close(v.g, g) && close(v.b, b));
    }
}

#[test]
fn components_are_clamped_and_truncated() {
    assert_eq!(clamp_unit::<Single>(-0.5), 0.0);
    assert_eq!(clamp_unit::<Single>(1.5), 1.0);
    assert_eq!(clamp_unit::<Single>(0.25), 0.25);
    assert_eq!(component_byte::<Single>(-1.0), 0);
    assert_eq!(component_byte::<Single>(2.0), 255);
    assert_eq!(component_byte::<Single>(0.5), 127);
}

#[test]
fn solid_image_has_known_header() {
    let pixels: Vec<u8> = [200, 100, 50, 255].repeat(32 * 32);
    let hash = rgba_to_thumb_hash::<Single>(32, 32, &pixels);
    assert_eq!(hash.len(), 24);
    assert_eq!(hash[..5], [0x1d, 0xcb, 0x02, 7, 0]);
}

#[test]
fn hash_lengths_follow_from_the_size() {
    for (w, h, alpha, len) in [
        (32, 32, 255, 24),
        (32, 32, 128, 25),
        (80, 40, 255, 19),
        (100, 1, 255, 17),
        (1, 1, 255, 24),
        (10, 4, 9, 23),
        (0, 0, 255, 13),
    ] {
        let pixels: Vec<u8> = [10, 20, 30, alpha].repeat(w * h);
        assert_eq!(rgba_to_thumb_hash::<Single>(w, h, &pixels).len(), len, "{w}x{h}");
    }
}

#[test]
fn one_transparent_pixel_makes_an_alpha_channel() {
    let mut pixels: Vec<u8> = [40, 50, 60, 255].repeat(100 * 100);
    let opaque = rgba_to_thumb_hash::<Single>(100, 100, &pixels);
    assert_eq!(opaque[2] >> 7, 0);
    pixels[4 * 5555 + 3] = 254;
    let transparent = rgba_to_thumb_hash::<Single>(100, 100, &pixels);
    assert_eq!(transparent[2] >> 7, 1);
    assert_eq!(transparent.len(), 25);
}

#[test]
fn empty_sides() {
    let empty = rgba_to_thumb_hash::<Single>(0, 0, &[]);
    assert!(thumb_hash_to_rgba::<Single>(&empty).is_err());
    let line = rgba_to_thumb_hash::<Single>(0, 5, &[]);
    let (w, h, rgba) = thumb_hash_to_rgba::<Single>(&line).unwrap();
    assert_eq!((w, h), (5, 32));
    assert_eq!(rgba.len(), 5 * 32 * 4);
}

#[test]
fn average_of_known_header() {
    let hash = plain_hash(63 | 32 << 6 | 31 << 12, 7);
    let (r, g, b, a) = thumb_hash_to_average_rgba::<Single>(&hash[..5]).unwrap();
    let (p, q) = (32.0 / 31.5 - 1.0, 31.0 / 31.5 - 1.0);
    let blue = 1.0 - 2.0 / 3.0 * p;
    let red: f32 = (3.0 - blue + q) / 2.0;
    assert!(close(r, red.clamp(0.0, 1.0)));
    assert!(close(g, (red - q).clamp(0.0, 1.0)));
    assert!(close(b, blue));
    assert_eq!(a, 1.0);
    let mut transparent = plain_hash(63 | 32 << 6 | 31 << 12 | 1 << 23, 5);
    transparent[5] = 0xf9;
    let (_, _, _, a) = thumb_hash_to_average_rgba::<Single>(&transparent[..6]).unwrap();
    assert_eq!(a, 9.0 / 15.0);
}

#[test]
fn averages_lie_in_range() {
    for low in (0..1u32 << 24).step_by(65_537) {
        let hash = plain_hash(low, 7);
        let (r, g, b, a) = thumb_hash_to_average_rgba::<Single>(&hash).unwrap();
        for v in [r, g, b, a] {
            assert!((0.0..=1.0).contains(&v));
        }
    }
}

#[test]
fn aspect_ratios_of_known_headers() {
    let ratio =
        |low, high| thumb_hash_to_approximate_aspect_ratio::<Single>(&plain_hash(low, high));
    assert_eq!(ratio(0, 4), Ok(4.0 / 7.0));
    assert_eq!(ratio(0, 4 | 1 << 15), Ok(7.0 / 4.0));
    assert_eq!(ratio(1 << 23, 3), Ok(3.0 / 5.0));
    assert_eq!(ratio(1 << 23, 3 | 1 << 15), Ok(5.0 / 3.0));
    assert_eq!(ratio(0, 0), Ok(0.0));
    assert_eq!(ratio(0, 1 << 15), Err(()));
}

#[test]
fn missing_alpha_byte_is_rejected() {
    let hash = plain_hash(1 << 23, 5);
    assert!(thumb_hash_to_rgba::<Single>(&hash[..5]).is_err());
    assert!(thumb_hash_to_average_rgba::<Single>(&hash[..5]).is_err());
    assert!(thumb_hash_to_average_rgba::<Single>(&hash[..6]).is_ok());
    assert!(thumb_hash_to_approximate_aspect_ratio::<Single>(&hash[..5]).is_ok());
}

#[test]
fn missing_nibbles_are_rejected() {
    let hash = plain_hash(0, 7);
    assert!(thumb_hash_to_rgba::<Single>(&hash[..23]).is_err());
    assert!(thumb_hash_to_rgba::<Single>(&hash[..24]).is_ok());
    let transparent = plain_hash(1 << 23, 5);
    assert!(thumb_hash_to_rgba::<Single>(&transparent[..24]).is_err());
    assert!(thumb_hash_to_rgba::<Single>(&transparent[..25]).is_ok());
}

#[test]
fn trailing_bytes_change_nothing() {
    let hash = plain_hash(0x123456, 0x6a85);
    let image = thumb_hash_to_rgba::<Single>(&hash).unwrap();
    let mut longer = hash.clone();
    longer.extend_from_slice(&[1, 2, 3]);
    assert_eq!(thumb_hash_to_rgba::<Single>(&longer).unwrap(), image);
}

#[test]
fn decoded_size_follows_from_the_header() {
    for (low, high, size) in [
        (0, 7, (32, 32)),
        (0, 4, (18, 32)),
        (0, 4 | 1 << 15, (32, 18)),
        (1 << 23, 2 | 1 << 15, (32, 13)),
        (0, 0, (0, 32)),
        (0, 1 << 15, (32, 0)),
    ] {
        let (w, h, rgba) = thumb_hash_to_rgba::<Single>(&plain_hash(low, high)).unwrap();
        assert_eq!((w, h), size);
        assert_eq!(rgba.len(), w * h * 4);
    }
}

#[test]
fn flat_hash_decodes_to_its_average() {
    let hash = plain_hash(40 | 20 << 6 | 50 << 12, 7);
    let (r, g, b, _) = thumb_hash_to_average_rgba::<Single>(&hash).unwrap();
    let (_, _, rgba) = thumb_hash_to_rgba::<Single>(&hash).unwrap();
    let expected = [(r * 255.0) as u8, (g * 255.0) as u8, (b * 255.0) as u8, 255];
    for pixel in rgba.chunks_exact(4) {
        assert_eq!(pixel, expected);
    }
}

#[test]
fn every_header_decodes_as_the_other_crate_does() {
    for (i, low) in (0..1u32 << 24).step_by(99_991).enumerate() {
        let extent = 1 + (i % 7) as u16;
        let high = extent | ((i * 11 % 4096) as u16) << 3 | ((i % 2) as u16) << 15;
        let mut hash = plain_hash(low, high);
        for (j, byte) in hash[5..].iter_mut().enumerate() {
            *byte = (i * 37 + j * 91) as u8;
        }
        let ours = thumb_hash_to_rgba::<Single>(&hash).unwrap();
        let theirs = thumbhash::thumb_hash_to_rgba(&hash).unwrap();
        assert_eq!((ours.0, ours.1), (theirs.0, theirs.1));
        for (&a, &b) in ours.2.iter().zip(&theirs.2) {
            assert!(a.abs_diff(b) <= 1);
        }
    }
}

#[test]
fn samples_after_the_last_row_take_no_part() {
    let samples: Vec<f32> = (0..20).map(|i| (i * i % 7) as f32 / 7.0).collect();
    let exact = encode_channel::<Single>(&samples[..12], 4, 3, 3, 3);
    let longer = encode_channel::<Single>(&samples, 4, 3, 3, 3);
    assert_eq!(exact.dc, longer.dc);
    assert_eq!(exact.ac, longer.ac);
    assert_eq!(exact.scale, longer.scale);
}

#[test]
fn channels_up_to_the_table_length() {
    let line = encode_channel::<Single>(&vec![1.0; 700], 700, 1, 1, 1);
    assert!(close(line.dc, 1.0));
    assert!(line.ac.is_empty());
    let column = encode_channel::<Single>(&vec![0.5; 350], 1, 350, 3, 2);
    assert!(close(column.dc, 0.5));
    assert_eq!(column.ac.len(), positions(3, 2).len() - 1);
}

#[test]
fn doubled_samples() {
    let samples: Vec<f32> = (0..63).map(|i| ((i * 29 + 3) % 31) as f32 / 64.0).collect();
    let doubled: Vec<f32> = samples.iter().map(|v| 2.0 * v).collect();
    let once = encode_channel::<Single>(&samples, 9, 7, 5, 4);
    let twice = encode_channel::<Single>(&doubled, 9, 7, 5, 4);
    assert_eq!(twice.dc, 2.0 * once.dc);
    assert_eq!(twice.scale, 2.0 * once.scale);
    assert_eq!(twice.ac, once.ac);
}

#[test]
fn negated_samples() {
    let samples: Vec<f32> = (0..63).map(|i| ((i * 29 + 3) % 31) as f32 / 64.0).collect();
    let negated: Vec<f32> = samples.iter().map(|v| -v).collect();
    let plain = encode_channel::<Single>(&samples, 9, 7, 5, 4);
    let other = encode_channel::<Single>(&negated, 9, 7, 5, 4);
    assert_eq!(other.dc, -plain.dc);
    assert_eq!(other.scale, plain.scale);
    assert_eq!(other.ac.len(), plain.ac.len());
    for (a, b) in other.ac.iter().zip(&plain.ac) {
        assert!(close(*a, 1.0 - b));
    }
}

#[test]
fn transposed_samples() {
    let (w, h, nx, ny) = (9, 7, 5, 4);
    let samples: Vec<f32> = (0..w * h).map(|i| ((i * 29 + 3) % 31) as f32 / 31.0).collect();
    let mut transposed = vec![0.0; w * h];
    for y in 0..h {
        for x in 0..w {
            transposed[x * h + y] = samples[y * w + x];
        }
    }
    let plain = encode_channel::<Single>(&samples, w, h, nx, ny);
    let other = encode_channel::<Single>(&transposed, h, w, ny, nx);
    assert!(close(plain.dc, other.dc));
    assert!(close(plain.scale, other.scale));
    let list = positions(nx, ny);
    let exchanged = positions(ny, nx);
    assert_eq!(list.len(), exchanged.len());
    for i in 1..list.len() {
        let (cx, cy) = list[i];
        let j = exchanged.iter().position(|&p| p == (cy, cx)).unwrap();
        assert!((plain.ac[i - 1] - other.ac[j - 1]).abs() < 1e-3);
    }
}

#[test]
fn square_channels_have_triangular_numbers_of_coefficients() {
    for n in 0..=12 {
        assert_eq!(2 * positions(n, n).len(), n * (n + 1));
    }
}

#[test]
fn hidden_colours_leave_no_trace() {
    let mut pixels: Vec<u8> = (0..40 * 30 * 4).map(|i| (i * 37 % 251) as u8).collect();
    for pixel in pixels.chunks_exact_mut(4).step_by(3) {
        pixel[3] = 0;
    }
    let mut repainted = pixels.clone();
    for pixel in repainted.chunks_exact_mut(4).step_by(3) {
        pixel[0] ^= 255;
        pixel[1] = 7;
        pixel[2] = pixel[2].wrapping_add(90);
    }
    assert_ne!(pixels, repainted);
    assert_eq!(
        rgba_to_thumb_hash::<Single>(40, 30, &pixels),
        rgba_to_thumb_hash::<Single>(40, 30, &repainted)
    );
}

#[test]
fn hashes_have_no_spare_bytes() {
    for (w, h, alpha) in [(32, 32, 255), (60, 20, 255), (17, 90, 200), (1, 1, 255), (100, 1, 9)] {
        let pixels: Vec<u8> = [200, 100, 50, alpha].repeat(w * h);
        let hash = rgba_to_thumb_hash::<Single>(w, h, &pixels);
        assert!(hash.len() >= 17);
        let (ow, oh, _) = thumb_hash_to_rgba::<Single>(&hash).unwrap();
        assert!(ow >= 5 && oh >= 5);
        for k in 0..hash.len() {
            assert!(thumb_hash_to_rgba::<Single>(&hash[..k]).is_err());
        }
    }
}

#[test]
fn unused_half_byte_changes_nothing() {
    // Seven by seven components make 37 nibbles: the last byte holds one of them.
    let hash = plain_hash(0x7a3456, 0x6a87 & 0x7fff);
    let mut other = hash[..24].to_vec();
    other[23] = other[23] & 15 | 0xd0;
    let image = thumb_hash_to_rgba::<Single>(&hash[..24]).unwrap();
    assert_eq!(thumb_hash_to_rgba::<Single>(&other).unwrap(), image);
}

#[test]
fn average_is_read_from_few_bits() {
    let low = 63 | 12 << 6 | 31 << 12 | 1 << 23;
    let hash = plain_hash(low, 5);
    let mut other = plain_hash(low | 21 << 18, 0xfffa);
    other[5] = hash[5] & 15 | 0xe0;
    other.truncate(6);
    assert_eq!(
        thumb_hash_to_average_rgba::<Single>(&hash),
        thumb_hash_to_average_rgba::<Single>(&other)
    );
    other[5] ^= 1;
    assert_ne!(
        thumb_hash_to_average_rgba::<Single>(&hash),
        thumb_hash_to_average_rgba::<Single>(&other)
    );
}

#[test]
fn zero_scales_hide_the_nibbles() {
    for low in [0u32, 40 | 20 << 6 | 50 << 12, 63 | 63 << 6 | 1 << 12 | 1 << 23] {
        for seed in 0..5u8 {
            let mut hash = plain_hash(low, 6);
            for (j, byte) in hash[5..].iter_mut().enumerate() {
                *byte = (j as u8).wrapping_mul(seed).wrapping_add(17);
            }
            hash[5] = if low >> 23 == 1 { 0x0b } else { hash[5] };
            let (r, g, b, a) = thumb_hash_to_average_rgba::<Single>(&hash).unwrap();
            let expected = [r, g, b, a].map(|v| (v * 255.0) as u8);
            let (_, _, rgba) = thumb_hash_to_rgba::<Single>(&hash).unwrap();
            for pixel in rgba.chunks_exact(4) {
                assert_eq!(pixel, expected);
            }
        }
    }
}

#[test]
fn exchanged_sides_invert_the_aspect_ratio() {
    for (w, h) in [(80, 40), (100, 7), (50, 50), (3, 99)] {
        let pixels: Vec<u8> = [9, 8, 7, 255].repeat(w * h);
        let a = rgba_to_thumb_hash::<Single>(w, h, &pixels);
        let b = rgba_to_thumb_hash::<Single>(h, w, &pixels);
        let a = thumb_hash_to_approximate_aspect_ratio::<Single>(&a).unwrap();
        let b = thumb_hash_to_approximate_aspect_ratio::<Single>(&b).unwrap();
        assert!(close(a * b, 1.0));
        let short = if w > h { 1.0 / a } else { a };
        assert!((short - w.min(h) as f32 / w.max(h) as f32).abs() <= 1.0 / 7.0);
    }
}

#[test]
fn black_pixel_has_known_header() {
    let hash = rgba_to_thumb_hash::<Single>(1, 1, &[0, 0, 0, 255]);
    let low = 32u32 << 6 | 32 << 12;
    assert_eq!(hash[..5], [low as u8, (low >> 8) as u8, (low >> 16) as u8, 7, 0]);
    assert_eq!(hash[5..], [0; 19]);
}
