//! Dithering library: reduces an image's color depth to a two-level palette
//! while preserving perceived tonal detail.
//!
//! Two engine families are provided:
//! - ordered (Bayer matrix threshold) dithering, a pure per-pixel decision
//!   against a tiled threshold matrix, and
//! - Floyd-Steinberg error diffusion, a raster-order scan that propagates the
//!   quantization residual to forward neighbors.
//!
//! Each engine supports three color modes: grayscale (black/white), colored
//! (per-channel binary), and duotone (two caller-chosen colors).
//!
//! The engines work on [`pixel::PixelBuffer`], a plain row-major sample
//! buffer; image decoding and encoding are the caller's concern.

use vstd::prelude::*;

pub mod bayer;
pub mod floyd_steinberg;
pub mod mapper;
pub mod matrix;
pub mod pixel;

pub use bayer::dither_colored as bayer_dither_colored;
pub use bayer::dither_duoton as bayer_dither_duoton;
pub use floyd_steinberg::dither_colored as floyd_dither_colored;
pub use floyd_steinberg::dither_duoton as floyd_dither_duoton;

verus! {

/// A requested configuration was invalid; reported before any pixel is read.
#[derive(Clone, Copy, Debug, PartialEq, Eq, Structural)]
pub enum ConfigurationError {
    /// The requested threshold matrix size is not one of the supported sizes.
    UnsupportedMatrixSize,
    /// A duotone color given as a slice did not have exactly three components.
    MalformedColorPair,
}

/// A pixel buffer's sample vector does not match its declared shape.
#[derive(Clone, Copy, Debug, PartialEq, Eq, Structural)]
pub enum DimensionError {
    /// The sample count differs from width * height * channels.
    LengthMismatch,
    /// The channel count is neither 1 (luma) nor 3 (RGB).
    UnsupportedChannelCount,
}

/// Any failure the library reports: all are deterministic, caller-supplied
/// parameter faults, detected up front before any processing starts.
#[derive(Clone, Copy, Debug, PartialEq, Eq, Structural)]
pub enum DitherError {
    /// An invalid engine configuration.
    Configuration(ConfigurationError),
    /// An inconsistent buffer shape.
    Dimension(DimensionError),
}

/// The output palette policy.
#[derive(Clone, Copy, Debug, PartialEq, Eq, Structural)]
pub enum DitherMode {
    /// One output channel, black or white.
    Grayscale,
    /// Three output channels, each thresholded on its own to 0 or 255.
    Colored,
    /// Three output channels holding one of two caller-chosen colors.
    Duotone,
}

/// The engine family.
#[derive(Clone, Copy, Debug, PartialEq, Eq, Structural)]
pub enum Algorithm {
    /// Matrix-threshold dithering with the given matrix size.
    Ordered(usize),
    /// Floyd-Steinberg error diffusion.
    ErrorDiffusion,
}

/// One entry point over both engines and all three color modes: resolves
/// the selectors and runs the matching engine. The color pair is read only
/// in duotone mode. Fails, before any pixel is read, exactly when an
/// ordered algorithm names an unsupported matrix size.
pub fn apply(
    algorithm: Algorithm,
    mode: DitherMode,
    img: &pixel::PixelBuffer,
    pair: &pixel::ColorPair,
) -> (r: Result<pixel::PixelBuffer, DitherError>)
    requires
        img.wf(),
        mode == DitherMode::Colored ==> img.channels == 3,
    ensures
        match algorithm {
            Algorithm::Ordered(n) => match r {
                Ok(out) => matrix::supported_size(n as int) && (match mode {
                    DitherMode::Grayscale => bayer::is_gray_output(out, *img, n as int),
                    DitherMode::Colored => bayer::is_colored_output(out, *img, n as int),
                    DitherMode::Duotone => bayer::is_duotone_output(
                        out,
                        *img,
                        n as int,
                        pair.low,
                        pair.high,
                    ),
                }),
                Err(e) => !matrix::supported_size(n as int) && e == DitherError::Configuration(
                    ConfigurationError::UnsupportedMatrixSize,
                ),
            },
            Algorithm::ErrorDiffusion => match r {
                Ok(out) => match mode {
                    DitherMode::Grayscale => floyd_steinberg::is_gray_output(out, *img),
                    DitherMode::Colored => floyd_steinberg::is_colored_output(out, *img),
                    DitherMode::Duotone => floyd_steinberg::is_duotone_output(
                        out,
                        *img,
                        pair.low,
                        pair.high,
                    ),
                },
                Err(_) => false,
            },
        },
{
    match algorithm {
        Algorithm::Ordered(n) => match mode {
            DitherMode::Grayscale => bayer::dither(n, img),
            DitherMode::Colored => bayer::dither_colored(n, img),
            DitherMode::Duotone => bayer::dither_duoton(n, img, pair.low, pair.high),
        },
        Algorithm::ErrorDiffusion => match mode {
            DitherMode::Grayscale => Ok(floyd_steinberg::dither(img)),
            DitherMode::Colored => Ok(floyd_steinberg::dither_colored(img)),
            DitherMode::Duotone => Ok(floyd_steinberg::dither_duoton(img, pair.low, pair.high)),
        },
    }
}

} // verus!
