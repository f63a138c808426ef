use dither_core::bayer;
use dither_core::pixel::PixelBuffer;
use dither_core::ConfigurationError;
use dither_core::DitherError;

fn gray_image(width: usize, height: usize, data: Vec<u8>) -> PixelBuffer {
    PixelBuffer::new(width, height, 1, data).unwrap()
}

fn rgb_image(width: usize, height: usize, data: Vec<u8>) -> PixelBuffer {
    PixelBuffer::new(width, height, 3, data).unwrap()
}

#[test]
fn scenario_uniform_midgray_2x2_tile() {
    // A 4x4 canvas of uniform value 128 with the 2x2 matrix [0, 3, 2, 1]:
    // the tile quantizes to [255, 0 / 0, 255], replicated over the canvas,
    // so exactly 8 pixels are black and 8 are white.
    let img = gray_image(4, 4, vec![128; 16]);
    let out = bayer::dither(2, &img).unwrap();
    assert_eq!(out.width, 4);
    assert_eq!(out.height, 4);
    assert_eq!(out.channels, 1);
    let expected = vec![
        255, 0, 255, 0, 0, 255, 0, 255, 255, 0, 255, 0, 0, 255, 0, 255,
    ];
    assert_eq!(out.data, expected);
    assert_eq!(out.data.iter().filter(|&&v| v == 255).count(), 8);
    assert_eq!(out.data.iter().filter(|&&v| v == 0).count(), 8);
}

#[test]
fn unsupported_size_fails_before_processing() {
    let img = gray_image(2, 2, vec![10, 20, 30, 40]);
    for &n in &[0usize, 1, 3, 5, 63] {
        match bayer::dither(n, &img) {
            Err(DitherError::Configuration(ConfigurationError::UnsupportedMatrixSize)) => {},
            other => panic!("size {} gave {:?}", n, other.map(|_| ())),
        }
        let rgb = rgb_image(1, 1, vec![1, 2, 3]);
        assert!(bayer::dither_colored(n, &rgb).is_err());
        assert!(bayer::dither_duoton(n, &img, [0, 0, 0], [255, 255, 255]).is_err());
    }
}

#[test]
fn ordered_dither_is_pure() {
    let data: Vec<u8> = (0..64u8).map(|v| v.wrapping_mul(37)).collect();
    let img = gray_image(8, 8, data);
    let a = bayer::dither(4, &img).unwrap();
    let b = bayer::dither(4, &img).unwrap();
    assert_eq!(a.data, b.data);
    let rgb_data: Vec<u8> = (0..48u8).map(|v| v.wrapping_mul(91)).collect();
    let rgb = rgb_image(4, 4, rgb_data);
    let c = bayer::dither_colored(8, &rgb).unwrap();
    let d = bayer::dither_colored(8, &rgb).unwrap();
    assert_eq!(c.data, d.data);
}

#[test]
fn threshold_tiles_with_period_n() {
    // An input that repeats with period 2 must produce an output that
    // repeats with period 2 under the 2x2 matrix, in both directions.
    let base = [100u8, 150, 60, 200];
    let mut data = Vec::new();
    for y in 0..6 {
        for x in 0..6 {
            data.push(base[(y % 2) * 2 + (x % 2)]);
        }
    }
    let img = gray_image(6, 6, data);
    let out = bayer::dither(2, &img).unwrap();
    for y in 0..6 {
        for x in 0..6 {
            let v = out.data[y * 6 + x];
            if x + 2 < 6 {
                assert_eq!(v, out.data[y * 6 + x + 2]);
            }
            if y + 2 < 6 {
                assert_eq!(v, out.data[(y + 2) * 6 + x]);
            }
        }
    }
}

#[test]
fn colored_mode_thresholds_each_channel() {
    // Rank 0 governs the single pixel, so its threshold comparison is
    // sample * 4 >= 255: channel 200 and 130 pass, channel 50 does not.
    let img = rgb_image(1, 1, vec![200, 50, 130]);
    let out = bayer::dither_colored(2, &img).unwrap();
    assert_eq!(out.channels, 3);
    assert_eq!(out.data, vec![255, 0, 255]);
}

#[test]
fn gray_mode_uses_luma_weights() {
    // Pure green: luma 0.587 of full scale; at rank 0 the threshold is
    // 1/4, so the pixel is bright.
    let g = rgb_image(1, 1, vec![0, 255, 0]);
    let out = bayer::dither(2, &g).unwrap();
    assert_eq!(out.data, vec![255]);
    // Pure blue: luma 0.114; the single rank-0 threshold 1/4 rejects it.
    let b = rgb_image(1, 1, vec![0, 0, 255]);
    let out_b = bayer::dither(2, &b).unwrap();
    assert_eq!(out_b.data, vec![0]);
}

#[test]
fn duotone_substitutes_the_two_colors() {
    let img = gray_image(2, 2, vec![128; 4]);
    let low = [10u8, 20, 30];
    let high = [200u8, 210, 220];
    let out = bayer::dither_duoton(2, &img, low, high).unwrap();
    assert_eq!(out.channels, 3);
    // The decision tile is [bright, dark / dark, bright].
    let expected = vec![
        200, 210, 220, 10, 20, 30, 10, 20, 30, 200, 210, 220,
    ];
    assert_eq!(out.data, expected);
}

#[test]
fn duotone_black_white_matches_gray_ordered() {
    let data: Vec<u8> = (0..36u8).map(|v| v.wrapping_mul(53)).collect();
    let img = gray_image(6, 6, data);
    let gray = bayer::dither(4, &img).unwrap();
    let duo = bayer::dither_duoton(4, &img, [0, 0, 0], [255, 255, 255]).unwrap();
    for t in 0..36 {
        for c in 0..3 {
            assert_eq!(duo.data[3 * t + c], gray.data[t]);
        }
    }
}
