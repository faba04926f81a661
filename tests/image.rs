use sobel::{
    edge_pixels, get_min_max, interior, scale, sobel, sobel_filter, sobel_x, sobel_y,
    FilterError, HeaderError, MAX_ENERGY,
};

// The same filter in floating point, for comparison.
fn float_reference(data: &[u8], width: usize, height: usize, depth: usize) -> Vec<u8> {
    let magnitude = |i: usize| {
        let p = |k: usize| data[k] as i64;
        let gy = -p(i - width - 1) - 4 * p(i - width) - p(i - width + 1)
            + p(i + width - 1)
            + 4 * p(i + width)
            + p(i + width + 1);
        let gx = p(i - width - 1) - p(i - width + 1) + 2 * p(i - 1) - 2 * p(i + 1)
            + p(i + width - 1)
            - p(i + width + 1);
        ((gy.abs() + gx.abs()) as f64).sqrt()
    };
    let is_inner = |i: usize| i > width && i + width < width * height && i % width != 0 && (i + 1) % width != 0;
    let mut min = f64::MAX;
    let mut max = f64::MIN;
    for i in 0..width * height {
        if is_inner(i) {
            let x = magnitude(i);
            if x < min {
                min = x;
            }
            if x > max {
                max = x;
            }
        }
    }
    let mut out = vec![0u8; data.len()];
    for i in 0..width * height {
        if is_inner(i) && max > min {
            out[i] = (depth as f64 * ((magnitude(i) - min) / (max - min))) as u8;
        }
    }
    out
}

fn image(width: usize, height: usize, depth: usize, pixels: &[u8]) -> Vec<u8> {
    let mut bytes = format!("P5\n{} {}\n{}\n", width, height, depth).into_bytes();
    bytes.extend_from_slice(pixels);
    bytes
}

#[test]
fn kernels_on_asymmetric_neighbourhood() {
    let data = [1u8, 2, 3, 4, 5, 6, 7, 8, 10];
    assert_eq!(sobel_y(&data, 4, 3), 37);
    assert_eq!(sobel_x(&data, 4, 3), -9);
    assert_eq!(sobel(&data, 4, 3), 46);
    assert_eq!((sobel(&data, 4, 3) as f64).sqrt(), 46f64.sqrt());
}

#[test]
fn vertical_kernel_weighs_cardinals_by_four() {
    let data = [0u8, 1, 0, 0, 0, 0, 0, 0, 0];
    assert_eq!(sobel_y(&data, 4, 3), -4);
    assert_eq!(sobel_x(&data, 4, 3), 0);
    let data = [0u8, 0, 0, 1, 0, 0, 0, 0, 0];
    assert_eq!(sobel_x(&data, 4, 3), 2);
    assert_eq!(sobel_y(&data, 4, 3), 0);
}

#[test]
fn largest_gradient() {
    let data = [0u8, 0, 255, 0, 0, 255, 255, 255, 255];
    assert_eq!(sobel_y(&data, 4, 3), 1530 - 255);
    let data = [255u8, 255, 0, 255, 0, 0, 255, 255, 255];
    assert_eq!(sobel(&data, 4, 3), 255 + 765);
    let data = [0u8, 0, 0, 255, 0, 0, 255, 255, 255];
    assert!(sobel(&data, 4, 3) <= MAX_ENERGY);
    let data = [0u8, 0, 0, 0, 0, 0, 255, 255, 255];
    assert_eq!(sobel_y(&data, 4, 3), 1530);
}

#[test]
fn interior_indices() {
    assert!(interior(4, 3, 3));
    for i in [0usize, 1, 2, 3, 5, 6, 7, 8] {
        assert!(!interior(i, 3, 3));
    }
    assert!(!interior(0, 1, 1));
    assert!(!interior(3, 2, 4));
    assert!(interior(6, 5, 4));
    assert!(!interior(9, 5, 4));
}

#[test]
fn min_max_over_interior() {
    let data = [1u8, 2, 3, 4, 5, 6, 7, 8, 10];
    assert_eq!(get_min_max(&data, 3, 3), Some((46, 46)));
    assert_eq!(get_min_max(&data[..4], 2, 2), None);
    let data = [
        0u8, 0, 0, 0, //
        0, 0, 0, 9, //
        0, 0, 0, 0,
    ];
    // Only index 6 has the 9 among its neighbours, as its right one.
    assert_eq!(get_min_max(&data, 4, 3), Some((0, 18)));
}

#[test]
fn min_and_max_both_follow_a_falling_sequence() {
    // Gradients fall from left to right: each new value lowers the least,
    // and the greatest is still the first one.
    let data = [
        0u8, 0, 0, 0, 0, //
        90, 30, 10, 0, 0, //
        0, 0, 0, 0, 0,
    ];
    let (lo, hi) = get_min_max(&data, 5, 3).unwrap();
    assert!(lo < hi);
    assert_eq!(hi, sobel(&data, 6, 5).max(sobel(&data, 7, 5)).max(sobel(&data, 8, 5)));
    assert_eq!(lo, sobel(&data, 6, 5).min(sobel(&data, 7, 5)).min(sobel(&data, 8, 5)));
}

#[test]
fn scale_exact_values() {
    assert_eq!(scale(0, 0, 4, 255), 0);
    assert_eq!(scale(4, 0, 4, 255), 255);
    assert_eq!(scale(1, 0, 4, 255), 127);
    assert_eq!(scale(4, 1, 9, 100), 50);
    assert_eq!(scale(1, 0, 2, 255), 180);
    assert_eq!(scale(2550, 0, 2550, 1), 1);
    assert_eq!(scale(2549, 0, 2550, 1), 0);
    assert_eq!(scale(5, 0, 9, 0), 0);
}

#[test]
fn scale_stays_in_depth() {
    for v in 3..=40u64 {
        let r = scale(v, 3, 40, 200);
        assert!(r <= 200);
        let exact = 200.0 * ((v as f64).sqrt() - 3f64.sqrt()) / (40f64.sqrt() - 3f64.sqrt());
        assert!((r as f64) <= exact + 1e-9 && exact < r as f64 + 1.0);
    }
}

#[test]
fn border_pixels_are_zero() {
    let pixels: Vec<u8> = (0..30u8).map(|x| x.wrapping_mul(37)).collect();
    let out = edge_pixels(&pixels, 6, 5, 255);
    for row in 0..5 {
        for col in 0..6 {
            if row == 0 || row == 4 || col == 0 || col == 5 {
                assert_eq!(out[row * 6 + col], 0);
            }
        }
    }
}

#[test]
fn edge_pixels_match_float_formula() {
    let pixels: Vec<u8> = (0..42u32).map(|x| ((x * x * 13 + 7 * x) % 256) as u8).collect();
    assert_eq!(edge_pixels(&pixels, 7, 6, 255), float_reference(&pixels, 7, 6, 255));
    assert_eq!(edge_pixels(&pixels, 6, 7, 100), float_reference(&pixels, 6, 7, 100));
}

#[test]
fn trailing_bytes_stay_zero() {
    let pixels = [1u8, 2, 3, 4, 5, 6, 7, 8, 10, 99, 99];
    let out = edge_pixels(&pixels, 3, 3, 255);
    assert_eq!(out, vec![0; 11]);
}

#[test]
fn uniform_image_is_black() {
    let pixels = vec![77u8; 25];
    let out = sobel_filter(&image(5, 5, 255, &pixels)).unwrap();
    assert_eq!(&out[..11], b"P5\n5 5\n255\n");
    assert!(out[11..].iter().all(|&b| b == 0));
    assert_eq!(out.len(), 11 + 25);
}

#[test]
fn too_small_image_is_black() {
    let out = sobel_filter(&image(2, 2, 255, &[1, 200, 3, 90])).unwrap();
    assert_eq!(&out[11..], &[0, 0, 0, 0]);
}

#[test]
fn diagonal_step_edge() {
    // 255 above the diagonal, 0 on and below it.
    let mut pixels = vec![0u8; 25];
    for r in 0..5 {
        for c in 0..5 {
            if c > r {
                pixels[r * 5 + c] = 255;
            }
        }
    }
    let input = image(5, 5, 255, &pixels);
    let out = sobel_filter(&input).unwrap();
    assert_eq!(out.len(), input.len());
    assert_eq!(&out[..11], &input[..11]);
    let body = &out[11..];
    let mut border = 0;
    for r in 0..5 {
        for c in 0..5 {
            if r == 0 || r == 4 || c == 0 || c == 4 {
                assert_eq!(body[r * 5 + c], 0);
                border += 1;
            }
        }
    }
    assert_eq!(border, 16);
    // Along the diagonal every neighbourhood looks alike: full strength.
    for k in 1..4 {
        assert_eq!(body[k * 5 + k], 255);
    }
    // Beside the band, the step is a quarter as strong: half the magnitude.
    assert_eq!(body[5 + 3], 127);
    assert_eq!(body[2 * 5 + 1], 127);
    // Far from the step nothing changes.
    assert_eq!(body[3 * 5 + 1], 0);
    assert_eq!(body, &float_reference(&pixels, 5, 5, 255)[..]);
}

#[test]
fn header_passes_through_with_comments() {
    let mut input = b"# edges\nP5\n# size\n3 3\n200\n".to_vec();
    input.extend_from_slice(&[9, 8, 7, 6, 5, 4, 3, 2, 1]);
    let out = sobel_filter(&input).unwrap();
    assert_eq!(&out[..26], &input[..26]);
    assert_eq!(&out[26..], &[0; 9]);
}

#[test]
fn malformed_header_is_reported() {
    assert_eq!(
        sobel_filter(b"P2\n1 1\n255\n\x00"),
        Err(FilterError::MalformedHeader(HeaderError::UnknownMagic("P2".to_string())))
    );
    assert_eq!(
        sobel_filter(b"P5\n1 1\n"),
        Err(FilterError::MalformedHeader(HeaderError::NoNewline))
    );
}

#[test]
fn unsupported_depth_is_reported() {
    assert_eq!(
        sobel_filter(&image(1, 1, 0, &[0])),
        Err(FilterError::UnsupportedDepth(0))
    );
    assert_eq!(
        sobel_filter(&image(1, 1, 65535, &[0, 0])),
        Err(FilterError::UnsupportedDepth(65535))
    );
}

#[test]
fn short_pixel_data_is_reported() {
    assert_eq!(
        sobel_filter(&image(3, 3, 255, &[0; 8])),
        Err(FilterError::ShortPixelData)
    );
    let huge = format!("P5\n{} 2\n255\n", usize::MAX).into_bytes();
    assert_eq!(sobel_filter(&huge), Err(FilterError::ShortPixelData));
}

#[test]
fn depth_sets_output_range() {
    let mut pixels = vec![0u8; 25];
    for r in 0..5 {
        for c in 0..5 {
            if c > r {
                pixels[r * 5 + c] = 255;
            }
        }
    }
    let out = sobel_filter(&image(5, 5, 15, &pixels)).unwrap();
    let body = &out[10..];
    assert!(body.iter().all(|&b| b <= 15));
    assert_eq!(body[6], 15);
}

#[test]
fn larger_image_matches_float_formula() {
    let (width, height) = (120usize, 90usize);
    let pixels: Vec<u8> = (0..width * height)
        .map(|i| {
            let (r, c) = (i / width, i % width);
            ((r * r + 3 * c * r + 11 * c) % 251) as u8
        })
        .collect();
    let input = image(width, height, 255, &pixels);
    let out = sobel_filter(&input).unwrap();
    let header_len = input.len() - pixels.len();
    assert_eq!(&out[header_len..], &float_reference(&pixels, width, height, 255)[..]);
}
