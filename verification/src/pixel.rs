//! The pixel buffer the engines read and produce, and the duotone color pair.

use vstd::prelude::*;

use crate::ConfigurationError;
use crate::DimensionError;
use crate::DitherError;

verus! {

/// A decoded image: row-major 8-bit samples, either one channel (luma) or
/// three channels (RGB). The sample for channel `c` of the pixel at `(x, y)`
/// sits at index `(y * width + x) * channels + c`.
pub struct PixelBuffer {
    /// Width in pixels.
    pub width: usize,
    /// Height in pixels.
    pub height: usize,
    /// Samples per pixel: 1 (luma) or 3 (RGB).
    pub channels: usize,
    /// Row-major interleaved samples, length `width * height * channels`.
    pub data: Vec<u8>,
}

impl PixelBuffer {
    /// Well-formedness: the declared shape matches the sample vector.
    pub open spec fn wf(self) -> bool {
        &&& self.channels == 1 || self.channels == 3
        &&& self.data@.len() == self.width * self.height * self.channels
    }

    /// Number of pixels.
    pub open spec fn spec_pixel_count(self) -> int {
        self.width * self.height
    }

    /// Number of pixels, computed without overflow: the sample vector is at
    /// least as long as the pixel count.
    pub fn pixel_count(&self) -> (r: usize)
        requires
            self.wf(),
        ensures
            r == self.width * self.height,
    {
        let len = self.data.len();
        proof {
            assert(self.width * self.height <= len) by (nonlinear_arith)
                requires
                    len == self.width * self.height * self.channels,
                    self.channels >= 1,
                    self.width >= 0,
                    self.height >= 0,
            ;
        }
        self.width * self.height
    }

    /// Builds a buffer after validating the declared shape against the
    /// sample vector; this is the only validation the engines rely on.
    pub fn new(width: usize, height: usize, channels: usize, data: Vec<u8>) -> (r: Result<
        PixelBuffer,
        DitherError,
    >)
        ensures
            match r {
                Ok(b) => {
                    &&& b.wf()
                    &&& b.width == width
                    &&& b.height == height
                    &&& b.channels == channels
                    &&& b.data@ == data@
                    &&& (channels == 1 || channels == 3)
                    &&& data@.len() == width * height * channels
                },
                Err(e) => {
                    &&& !((channels == 1 || channels == 3) && data@.len() == width * height
                        * channels)
                    &&& (if channels == 1 || channels == 3 {
                        e == DitherError::Dimension(DimensionError::LengthMismatch)
                    } else {
                        e == DitherError::Dimension(DimensionError::UnsupportedChannelCount)
                    })
                },
            },
    {
        if channels != 1 && channels != 3 {
            return Err(DitherError::Dimension(DimensionError::UnsupportedChannelCount));
        }
        let n = data.len();
        let wh = match width.checked_mul(height) {
            Some(p) => p,
            None => {
                proof {
                    assert(width * height * channels >= width * height) by (nonlinear_arith)
                        requires
                            width >= 0,
                            height >= 0,
                            channels >= 1,
                    ;
                    assert(data@.len() == n <= usize::MAX);
                }
                return Err(DitherError::Dimension(DimensionError::LengthMismatch));
            },
        };
        let whc = match wh.checked_mul(channels) {
            Some(p) => p,
            None => {
                proof {
                    assert(width * height * channels == wh * channels);
                    assert(data@.len() == n <= usize::MAX);
                }
                return Err(DitherError::Dimension(DimensionError::LengthMismatch));
            },
        };
        if n != whc {
            return Err(DitherError::Dimension(DimensionError::LengthMismatch));
        }
        Ok(PixelBuffer { width, height, channels, data })
    }
}

/// The two output colors of duotone mode: `low` replaces a dark decision,
/// `high` a bright one. No relationship between the two is required.
pub struct ColorPair {
    /// Color written for a dark (0) decision.
    pub low: [u8; 3],
    /// Color written for a bright (1) decision.
    pub high: [u8; 3],
}

impl ColorPair {
    /// Pairs two RGB colors.
    pub fn new(low: [u8; 3], high: [u8; 3]) -> (r: ColorPair)
        ensures
            r.low == low,
            r.high == high,
    {
        ColorPair { low, high }
    }

    /// Validates two caller-supplied component lists: each must hold exactly
    /// the three RGB components, else the pair is malformed.
    pub fn from_slices(low: &Vec<u8>, high: &Vec<u8>) -> (r: Result<ColorPair, DitherError>)
        ensures
            match r {
                Ok(p) => {
                    &&& low@.len() == 3 && high@.len() == 3
                    &&& p.low@ =~= low@
                    &&& p.high@ =~= high@
                },
                Err(e) => {
                    &&& !(low@.len() == 3 && high@.len() == 3)
                    &&& e == DitherError::Configuration(ConfigurationError::MalformedColorPair)
                },
            },
    {
        if low.len() != 3 || high.len() != 3 {
            return Err(DitherError::Configuration(ConfigurationError::MalformedColorPair));
        }
        let l: [u8; 3] = [low[0], low[1], low[2]];
        let h: [u8; 3] = [high[0], high[1], high[2]];
        proof {
            assert(l@ =~= low@);
            assert(h@ =~= high@);
        }
        Ok(ColorPair { low: l, high: h })
    }
}

} // verus!
