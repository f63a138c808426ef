use dither_core::apply;
use dither_core::floyd_steinberg;
use dither_core::pixel::ColorPair;
use dither_core::Algorithm;
use dither_core::DitherMode;
use dither_core::pixel::PixelBuffer;
use dither_core::ConfigurationError;
use dither_core::DimensionError;
use dither_core::DitherError;

fn luma_image(width: usize, height: usize, data: Vec<u8>) -> PixelBuffer {
    PixelBuffer::new(width, height, 1, data).unwrap()
}

fn color_image(width: usize, height: usize, data: Vec<u8>) -> PixelBuffer {
    PixelBuffer::new(width, height, 3, data).unwrap()
}

#[test]
fn scenario_low_uniform_row_stays_black() {
    // A single row of four pixels at value 64: each accumulated value stays
    // below the midpoint (64, 92, 104, 109), so every pixel quantizes to
    // black.
    let img = luma_image(4, 1, vec![64, 64, 64, 64]);
    let out = floyd_steinberg::dither(&img);
    assert_eq!(out.width, 4);
    assert_eq!(out.height, 1);
    assert_eq!(out.channels, 1);
    assert_eq!(out.data, vec![0, 0, 0, 0]);
}

#[test]
fn midgray_2x2_diffuses_exactly() {
    // 2x2 at value 128: the first pixel rounds up to white and pushes
    // negative error forward; following the kernel exactly gives
    // [255, 0 / 0, 255].
    let img = luma_image(2, 2, vec![128; 4]);
    let out = floyd_steinberg::dither(&img);
    assert_eq!(out.data, vec![255, 0, 0, 255]);
}

#[test]
fn every_pixel_is_quantized_on_all_shapes() {
    for &(w, h) in &[(1usize, 1usize), (1, 4), (4, 1), (3, 3), (5, 2), (2, 5)] {
        let data: Vec<u8> = (0..w * h).map(|i| (i * 41 % 256) as u8).collect();
        let img = luma_image(w, h, data);
        let out = floyd_steinberg::dither(&img);
        assert_eq!(out.data.len(), w * h);
        assert!(out.data.iter().all(|&v| v == 0 || v == 255));
    }
}

#[test]
fn gray_mode_seeds_from_luma() {
    // Pure green has luma 149 (above the midpoint), pure red 76, pure blue
    // 29 (both below).
    let g = color_image(1, 1, vec![0, 255, 0]);
    assert_eq!(floyd_steinberg::dither(&g).data, vec![255]);
    let r = color_image(1, 1, vec![255, 0, 0]);
    assert_eq!(floyd_steinberg::dither(&r).data, vec![0]);
    let b = color_image(1, 1, vec![0, 0, 255]);
    assert_eq!(floyd_steinberg::dither(&b).data, vec![0]);
}

#[test]
fn colored_mode_diffuses_channels_independently() {
    let img = color_image(1, 1, vec![200, 50, 130]);
    let out = floyd_steinberg::dither_colored(&img);
    assert_eq!(out.channels, 3);
    assert_eq!(out.data, vec![255, 0, 255]);
}

#[test]
fn colored_channels_match_separate_gray_runs() {
    // Diffusing each channel independently must agree with running the
    // grayscale engine on that channel alone.
    let w = 5;
    let h = 3;
    let data: Vec<u8> = (0..w * h * 3).map(|i| (i * 67 % 256) as u8).collect();
    let img = color_image(w, h, data.clone());
    let out = floyd_steinberg::dither_colored(&img);
    for c in 0..3 {
        let channel: Vec<u8> = (0..w * h).map(|t| data[3 * t + c]).collect();
        let single = floyd_steinberg::dither(&luma_image(w, h, channel));
        for t in 0..w * h {
            assert_eq!(out.data[3 * t + c], single.data[t]);
        }
    }
}

#[test]
fn duotone_black_white_matches_gray_diffusion() {
    let data: Vec<u8> = (0..24usize).map(|i| (i * 31 % 256) as u8).collect();
    let img = luma_image(6, 4, data);
    let gray = floyd_steinberg::dither(&img);
    let duo = floyd_steinberg::dither_duoton(&img, [0, 0, 0], [255, 255, 255]);
    for t in 0..24 {
        for c in 0..3 {
            assert_eq!(duo.data[3 * t + c], gray.data[t]);
        }
    }
}

#[test]
fn duotone_uses_the_given_colors() {
    let img = luma_image(1, 1, vec![200]);
    let out = floyd_steinberg::dither_duoton(&img, [5, 6, 7], [60, 70, 80]);
    assert_eq!(out.data, vec![60, 70, 80]);
    let dark = luma_image(1, 1, vec![10]);
    let out_dark = floyd_steinberg::dither_duoton(&dark, [5, 6, 7], [60, 70, 80]);
    assert_eq!(out_dark.data, vec![5, 6, 7]);
}

#[test]
fn apply_dispatches_to_the_matching_engine() {
    let data: Vec<u8> = (0..48usize).map(|i| (i * 59 % 256) as u8).collect();
    let img = color_image(4, 4, data);
    let pair = ColorPair::new([0, 0, 0], [255, 255, 255]);
    let via_apply = apply(Algorithm::ErrorDiffusion, DitherMode::Colored, &img, &pair).unwrap();
    let direct = floyd_steinberg::dither_colored(&img);
    assert_eq!(via_apply.data, direct.data);
    let ordered = apply(Algorithm::Ordered(8), DitherMode::Grayscale, &img, &pair).unwrap();
    let ordered_direct = dither_core::bayer::dither(8, &img).unwrap();
    assert_eq!(ordered.data, ordered_direct.data);
    match apply(Algorithm::Ordered(3), DitherMode::Grayscale, &img, &pair) {
        Err(DitherError::Configuration(ConfigurationError::UnsupportedMatrixSize)) => {},
        other => panic!("got {:?}", other.map(|_| ())),
    }
}

#[test]
fn top_level_shortcuts_match_the_engines() {
    let data: Vec<u8> = (0..27usize).map(|i| (i * 83 % 256) as u8).collect();
    let img = color_image(3, 3, data);
    let a = dither_core::floyd_dither_colored(&img);
    let b = floyd_steinberg::dither_colored(&img);
    assert_eq!(a.data, b.data);
    let c = dither_core::bayer_dither_colored(2, &img).unwrap();
    let d = dither_core::bayer::dither_colored(2, &img).unwrap();
    assert_eq!(c.data, d.data);
    let e = dither_core::bayer_dither_duoton(2, &img, [1, 2, 3], [9, 8, 7]).unwrap();
    let f = dither_core::floyd_dither_duoton(&img, [1, 2, 3], [9, 8, 7]);
    assert_eq!(e.data.len(), 27);
    assert_eq!(f.data.len(), 27);
}

#[test]
fn buffer_length_mismatch_is_rejected() {
    match PixelBuffer::new(2, 2, 1, vec![0, 0, 0]) {
        Err(DitherError::Dimension(DimensionError::LengthMismatch)) => {},
        other => panic!("got {:?}", other.map(|_| ())),
    }
}

#[test]
fn unsupported_channel_count_is_rejected() {
    match PixelBuffer::new(2, 1, 2, vec![0, 0, 0, 0]) {
        Err(DitherError::Dimension(DimensionError::UnsupportedChannelCount)) => {},
        other => panic!("got {:?}", other.map(|_| ())),
    }
}

#[test]
fn malformed_color_pair_is_rejected() {
    let short = vec![0u8, 1];
    let full = vec![1u8, 2, 3];
    match ColorPair::from_slices(&short, &full) {
        Err(DitherError::Configuration(ConfigurationError::MalformedColorPair)) => {},
        other => panic!("got {:?}", other.map(|_| ())),
    }
    match ColorPair::from_slices(&full, &short) {
        Err(DitherError::Configuration(ConfigurationError::MalformedColorPair)) => {},
        other => panic!("got {:?}", other.map(|_| ())),
    }
    let pair = ColorPair::from_slices(&full, &full).unwrap();
    assert_eq!(pair.low, [1, 2, 3]);
    assert_eq!(pair.high, [1, 2, 3]);
}
