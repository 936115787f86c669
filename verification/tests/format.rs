//! The bytes of a hash and the whole numbers behind them.
use fast_thumbhash::color::sum_pixels;
use fast_thumbhash::geometry::{decoded_sides, luma_components, positions, round_div};
use fast_thumbhash::header::Header;
use fast_thumbhash::nibbles::{pack_nibbles, unpack_nibbles};
use fast_thumbhash::parts::{count_nibbles, parse_averages, Parts};
use fast_thumbhash::saturate::{to_byte, to_short};

fn header() -> Header {
    Header {
        l_dc: 29,
        p_dc: 44,
        q_dc: 45,
        l_scale: 17,
        has_alpha: false,
        extent: 5,
        p_scale: 33,
        q_scale: 62,
        is_landscape: true,
    }
}

#[test]
fn quotients_round_halves_upwards() {
    assert_eq!(round_div(0, 5), 0);
    assert_eq!(round_div(4, 3), 1);
    assert_eq!(round_div(5, 3), 2);
    assert_eq!(round_div(5, 2), 3);
    assert_eq!(round_div(7, 2), 4);
}

#[test]
fn luma_components_of_known_sizes() {
    assert_eq!(luma_components(32, 32, false), (7, 7));
    assert_eq!(luma_components(32, 32, true), (5, 5));
    assert_eq!(luma_components(80, 40, false), (7, 4));
    assert_eq!(luma_components(30, 60, false), (4, 7));
    assert_eq!(luma_components(100, 1, false), (7, 1));
    assert_eq!(luma_components(0, 0, false), (1, 1));
    assert_eq!(luma_components(0, 9, true), (1, 5));
}

#[test]
fn luma_components_are_rounded_quotients() {
    for w in 0..=100usize {
        for h in 0..=100usize {
            for (alpha, limit) in [(false, 7), (true, 5)] {
                let longest = w.max(h) as f32;
                let x = (((limit * w) as f32 / longest).round() as usize).max(1);
                let y = (((limit * h) as f32 / longest).round() as usize).max(1);
                assert_eq!(luma_components(w, h, alpha), (x, y), "{w}x{h}");
            }
        }
    }
}

#[test]
fn shorter_side_gets_closest_number_of_components() {
    for w in 1..=100i64 {
        for h in 1..=w {
            let (_, components) = luma_components(w as usize, h as usize, false);
            let twice_error = 2 * (7 * h - components as i64 * w);
            assert!(
                -w <= twice_error && twice_error < w || (14 * h < w && components == 1),
                "{w}x{h}"
            );
        }
    }
}

#[test]
fn positions_lie_below_the_diagonal_in_order() {
    assert_eq!(positions(3, 3), vec![(0, 0), (1, 0), (2, 0), (0, 1), (1, 1), (0, 2)]);
    assert_eq!(positions(2, 1), vec![(0, 0), (1, 0)]);
    assert_eq!(positions(5, 5).len(), 15);
    assert_eq!(positions(7, 7).len(), 28);
    for nx in 1..=7 {
        for ny in 1..=7 {
            let mut expected = vec![];
            for cy in 0..ny {
                for cx in 0..nx {
                    if cx * ny < nx * (ny - cy) {
                        expected.push((cx, cy));
                    }
                }
            }
            assert_eq!(positions(nx, ny), expected);
        }
    }
}

#[test]
fn decoded_sides_are_rounded_quotients() {
    assert_eq!(decoded_sides(7, 7), (32, 32));
    assert_eq!(decoded_sides(7, 4), (32, 18));
    assert_eq!(decoded_sides(4, 7), (18, 32));
    assert_eq!(decoded_sides(5, 1), (32, 6));
    assert_eq!(decoded_sides(7, 0), (32, 0));
    assert_eq!(decoded_sides(0, 7), (0, 32));
    for lx in 0..=7usize {
        for ly in 0..=7usize {
            if lx == 0 && ly == 0 {
                continue;
            }
            let ratio = lx as f32 / ly as f32;
            let expected = if ratio > 1.0 {
                (32, (32.0 / ratio).round() as usize)
            } else {
                ((32.0 * ratio).round() as usize, 32)
            };
            assert_eq!(decoded_sides(lx, ly), expected);
        }
    }
}

#[test]
fn header_has_known_bytes() {
    let low = 29u32 | 44 << 6 | 45 << 12 | 17 << 18;
    let high = 5u32 | 33 << 3 | 62 << 9 | 1 << 15;
    let expected = vec![
        (low & 255) as u8,
        (low >> 8 & 255) as u8,
        (low >> 16) as u8,
        (high & 255) as u8,
        (high >> 8) as u8,
    ];
    assert_eq!(expected, vec![29, 219, 70, 13, 253]);
    assert_eq!(header().to_bytes(), expected);
    let transparent = Header { has_alpha: true, is_landscape: false, ..header() };
    assert_eq!(transparent.to_bytes(), vec![29, 219, 198, 13, 125]);
}

#[test]
fn header_is_read_back() {
    for has_alpha in [false, true] {
        for is_landscape in [false, true] {
            for extent in 0..8 {
                let written = Header { has_alpha, is_landscape, extent, ..header() };
                let mut bytes = written.to_bytes();
                bytes.push(99);
                assert_eq!(Header::parse(&bytes), Ok(written));
            }
        }
    }
}

#[test]
fn header_bytes_are_written_back() {
    for seed in 0..=255u8 {
        let bytes = vec![
            seed,
            seed.wrapping_mul(7),
            seed.wrapping_mul(31).wrapping_add(5),
            seed.wrapping_mul(101),
            seed ^ 0xa5,
        ];
        assert_eq!(Header::parse(&bytes).unwrap().to_bytes(), bytes);
    }
}

#[test]
fn large_header_field_spills_over() {
    let large = Header { l_dc: 64, p_dc: 0, ..header() };
    let carried = Header { l_dc: 0, p_dc: 1, ..header() };
    assert_eq!(large.to_bytes(), carried.to_bytes());
}

#[test]
fn short_header_is_rejected() {
    for len in 0..5 {
        assert_eq!(Header::parse(&vec![0; len]), Err(()));
    }
    assert!(Header::parse(&[0; 5]).is_ok());
}

#[test]
fn recorded_components_follow_the_orientation() {
    let wide = header();
    assert_eq!(wide.recorded_components(), (7, 5));
    let high = Header { is_landscape: false, extent: 2, ..header() };
    assert_eq!(high.recorded_components(), (2, 7));
    assert_eq!(high.used_components(), (3, 7));
    let transparent = Header { has_alpha: true, extent: 1, ..header() };
    assert_eq!(transparent.recorded_components(), (5, 1));
    assert_eq!(transparent.used_components(), (5, 3));
}

#[test]
fn nibbles_are_packed_in_pairs() {
    let mut out = vec![7];
    pack_nibbles(&vec![1, 2, 3], &mut out);
    assert_eq!(out, vec![7, 0x21, 3]);
    let mut even = vec![];
    pack_nibbles(&vec![15, 0, 4, 9], &mut even);
    assert_eq!(even, vec![0x0f, 0x94]);
    assert_eq!(unpack_nibbles(&[9, 0x21, 0x43], 1, 3), vec![1, 2, 3]);
}

#[test]
fn nibbles_are_read_back() {
    for len in 0..=40 {
        let nibbles: Vec<u8> = (0..len).map(|i| (i * 7 % 16) as u8).collect();
        let mut bytes = vec![];
        pack_nibbles(&nibbles, &mut bytes);
        assert_eq!(bytes.len(), (len + 1) / 2);
        bytes.push(200);
        assert_eq!(unpack_nibbles(&bytes, 0, len), nibbles);
    }
}

#[test]
fn nibbles_are_written_back() {
    let bytes: Vec<u8> = (0..=255).collect();
    let mut again = vec![];
    pack_nibbles(&unpack_nibbles(&bytes, 0, 512), &mut again);
    assert_eq!(again, bytes);
}

#[test]
fn nibble_counts() {
    let square = Header { extent: 7, ..header() };
    assert_eq!(count_nibbles(&square), 37);
    let transparent = Header { has_alpha: true, extent: 5, ..header() };
    assert_eq!(count_nibbles(&transparent), 38);
    let flat = Header { extent: 1, ..header() };
    assert_eq!(count_nibbles(&flat), 24);
}

#[test]
fn parts_are_read_back() {
    for has_alpha in [false, true] {
        let header = Header { has_alpha, ..header() };
        let count = count_nibbles(&header);
        let alpha = if has_alpha { Some((11, 6)) } else { None };
        let nibbles: Vec<u8> = (0..count).map(|i| (i % 16) as u8).collect();
        let parts = Parts { header, alpha, nibbles: nibbles.clone() };
        let hash = parts.to_bytes();
        assert_eq!(hash.len(), if has_alpha { 6 } else { 5 } + (count + 1) / 2);
        assert_eq!(parse_averages(&hash), Ok((header, alpha)));
        let read = Parts::parse(&hash).unwrap_or_else(|_| panic!("complete hash"));
        assert_eq!(read.header, header);
        assert_eq!(read.alpha, alpha);
        assert_eq!(read.nibbles, nibbles);
    }
}

#[test]
fn alpha_byte_holds_average_and_scale() {
    let header = Header { has_alpha: true, ..header() };
    let hash = Parts { header, alpha: Some((11, 6)), nibbles: vec![] }.to_bytes();
    assert_eq!(hash[5], 0x6b);
}

#[test]
fn incomplete_parts_are_rejected() {
    let transparent = Header { has_alpha: true, ..header() }.to_bytes();
    assert_eq!(transparent.len(), 5);
    assert_eq!(parse_averages(&transparent), Err(()));
    assert!(Parts::parse(&transparent).is_err());
    let count = count_nibbles(&header());
    let needed = 5 + (count + 1) / 2;
    let mut hash = header().to_bytes();
    while hash.len() < needed {
        assert!(parse_averages(&hash).is_ok());
        assert!(Parts::parse(&hash).is_err());
        hash.push(0);
    }
    assert!(Parts::parse(&hash).is_ok());
}

#[test]
fn large_numbers_saturate() {
    assert_eq!(to_byte(255), 255);
    assert_eq!(to_byte(256), 255);
    assert_eq!(to_short(65535), 65535);
    assert_eq!(to_short(65536), 65535);
    assert_eq!(to_byte(3), 3);
    assert_eq!(to_short(300), 300);
}

#[test]
fn sums_are_weighted_by_alpha() {
    let sums = sum_pixels(&[10, 20, 30, 255, 1, 2, 3, 100]);
    assert_eq!((sums.r, sums.g, sums.b, sums.a), (2650, 5300, 7950, 355));
    let white = sum_pixels(&[255; 40000]);
    assert_eq!((white.r, white.a), (650_250_000, 2_550_000));
}
