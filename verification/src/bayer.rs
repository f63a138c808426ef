//! The ordered dithering engine: a stateless per-pixel threshold comparison
//! against the tiled Bayer matrix. Every pixel's output is a pure function
//! of the input buffer, the matrix size and the mode; no pixel reads any
//! other pixel's state.

use vstd::prelude::*;

use vstd::arithmetic::div_mod::lemma_fundamental_div_mod_converse;

use crate::matrix::lemma_matrix_permutation;
use crate::matrix::matrix_at;
use crate::matrix::matrix_spec;
use crate::matrix::supported_size;
use crate::matrix::threshold_matrix;
use crate::mapper::bw_sample;
use crate::mapper::duotone_sample;
use crate::mapper::map_duotone;
use crate::mapper::map_gray;
use crate::pixel::PixelBuffer;
use crate::ConfigurationError;
use crate::DitherError;

verus! {

/// Luma of pixel `t` of `img`, in thousandths of a sample unit: the standard
/// weighting 0.299 R + 0.587 G + 0.114 B, or the raw sample of a
/// single-channel buffer.
pub open spec fn luma_millis(img: PixelBuffer, t: int) -> int {
    if img.channels == 1 {
        1000 * img.data@[t]
    } else {
        299 * img.data@[3 * t] + 587 * img.data@[3 * t + 1] + 114 * img.data@[3 * t + 2]
    }
}

/// The threshold decision for a luma `lm` (in thousandths of a sample) at a
/// position whose tiled matrix rank is `m`, for matrix size `n`: bright
/// exactly when the normalized luma reaches the rank's threshold,
/// `lm / 255000 >= (m + 1) / n^2`, compared exactly over the integers.
pub open spec fn ordered_luma_bit(lm: int, m: int, n: int) -> bool {
    lm * (n * n) >= (m + 1) * 255000
}

/// The per-channel threshold decision against one raw 8-bit sample.
pub open spec fn ordered_channel_bit(s: int, m: int, n: int) -> bool {
    s * (n * n) >= (m + 1) * 255
}

/// The grayscale (and duotone) decision for pixel `(x, y)`.
pub open spec fn gray_bit(img: PixelBuffer, n: int, x: int, y: int) -> bool {
    ordered_luma_bit(luma_millis(img, y * img.width + x), matrix_at(n, x, y), n)
}

/// The colored-mode decision for channel `c` of pixel `(x, y)`.
pub open spec fn channel_bit(img: PixelBuffer, n: int, x: int, y: int, c: int) -> bool {
    ordered_channel_bit(
        img.data@[(y * img.width + x) * 3 + c] as int,
        matrix_at(n, x, y),
        n,
    )
}

/// `out` is the ordered grayscale dithering of `img` with matrix size `n`.
pub open spec fn is_gray_output(out: PixelBuffer, img: PixelBuffer, n: int) -> bool {
    &&& out.wf()
    &&& out.width == img.width
    &&& out.height == img.height
    &&& out.channels == 1
    &&& forall|x: int, y: int|
        0 <= x < img.width && 0 <= y < img.height ==> out.data@[y * img.width + x] == bw_sample(
            gray_bit(img, n, x, y),
        )
}

/// `out` is the ordered colored (per-channel binary) dithering of `img`.
pub open spec fn is_colored_output(out: PixelBuffer, img: PixelBuffer, n: int) -> bool {
    &&& out.wf()
    &&& out.width == img.width
    &&& out.height == img.height
    &&& out.channels == 3
    &&& forall|x: int, y: int, c: int|
        0 <= x < img.width && 0 <= y < img.height && 0 <= c < 3 ==> out.data@[(y * img.width + x)
            * 3 + c] == bw_sample(channel_bit(img, n, x, y, c))
}

/// `out` is the ordered duotone dithering of `img` with the given colors.
pub open spec fn is_duotone_output(
    out: PixelBuffer,
    img: PixelBuffer,
    n: int,
    low: [u8; 3],
    high: [u8; 3],
) -> bool {
    &&& out.wf()
    &&& out.width == img.width
    &&& out.height == img.height
    &&& out.channels == 3
    &&& forall|x: int, y: int, c: int|
        0 <= x < img.width && 0 <= y < img.height && 0 <= c < 3 ==> out.data@[(y * img.width + x)
            * 3 + c] == duotone_sample(gray_bit(img, n, x, y), low, high, c)
}

/// Reads the luma of pixel `t`, in thousandths of a sample unit.
fn pixel_luma_millis(img: &PixelBuffer, t: usize) -> (r: u32)
    requires
        img.wf(),
        t < img.width * img.height,
    ensures
        r == luma_millis(*img, t as int),
        r <= 255000,
{
    let len = img.data.len();
    if img.channels == 1 {
        proof {
            assert(t < img.width * img.height * 1);
        }
        1000 * (img.data[t] as u32)
    } else {
        proof {
            assert(3 * t + 2 < img.width * img.height * 3) by (nonlinear_arith)
                requires
                    t < img.width * img.height,
            ;
            assert(3 * t + 2 < len);
        }
        let idx: usize = 3 * t;
        299 * (img.data[idx] as u32) + 587 * (img.data[idx + 1] as u32) + 114 * (img.data[idx + 2]
            as u32)
    }
}

/// Reads the tiled matrix rank for pixel `(x, y)` out of the resolved matrix.
fn rank_at(matrix: &Vec<u16>, n: usize, x: usize, y: usize) -> (r: u16)
    requires
        supported_size(n as int),
        matrix@ == matrix_spec(n as int),
    ensures
        r as int == matrix_at(n as int, x as int, y as int),
        r < 4096,
{
    proof {
        lemma_matrix_permutation(n as int);
        assert(((y as int) % (n as int)) * (n as int) + ((x as int) % (n as int)) < (n as int) * (
        n as int)) by (nonlinear_arith)
            requires
                0 <= (y as int) % (n as int) < (n as int),
                0 <= (x as int) % (n as int) < (n as int),
        ;
        assert((n as int) * (n as int) <= 4096);
    }
    let k: usize = (y % n) * n + (x % n);
    matrix[k]
}

/// Ordered dithering, grayscale mode: every pixel's luma is compared against
/// its tiled threshold and mapped to black or white. Fails, before any pixel
/// is read, exactly when the matrix size is unsupported.
pub fn dither(n: usize, img: &PixelBuffer) -> (r: Result<PixelBuffer, DitherError>)
    requires
        img.wf(),
    ensures
        match r {
            Ok(out) => supported_size(n as int) && is_gray_output(out, *img, n as int),
            Err(e) => !supported_size(n as int) && e == DitherError::Configuration(
                ConfigurationError::UnsupportedMatrixSize,
            ),
        },
{
    let matrix = match threshold_matrix(n) {
        Ok(m) => m,
        Err(e) => {
            return Err(e);
        },
    };
    let w = img.width;
    let h = img.height;
    let wh = img.pixel_count();
    let mut data: Vec<u8> = Vec::new();
    let mut t: usize = 0;
    let mut x: usize = 0;
    let mut y: usize = 0;
    while t < wh
        invariant
            img.wf(),
            supported_size(n as int),
            matrix@ == matrix_spec(n as int),
            w == img.width,
            h == img.height,
            wh == w * h,
            t == y * w + x,
            t <= wh,
            x < w || x == 0,
            y <= h,
            data@.len() == t,
            forall|i: int|
                0 <= i < data@.len() ==> data@[i] == bw_sample(
                    gray_bit(*img, n as int, i % (w as int), i / (w as int)),
                ),
        decreases wh - t,
    {
        proof {
            assert(y < h && x < w) by (nonlinear_arith)
                requires
                    t == y * w + x,
                    t < w * h,
                    x < w || x == 0,
                    0 <= x,
                    0 <= y,
                    y <= h,
            ;
            assert(t < img.width * img.height);
        }
        let lm = pixel_luma_millis(img, t);
        let m = rank_at(&matrix, n, x, y);
        proof {
            assert((n as int) * (n as int) <= 4096);
            assert((lm as int) * ((n as int) * (n as int)) <= 255000 * 4096) by (nonlinear_arith)
                requires
                    0 <= lm <= 255000,
                    0 <= (n as int) * (n as int) <= 4096,
            ;
        }
        let nn: u64 = (n as u64) * (n as u64);
        let bit: bool = (lm as u64) * nn >= ((m as u64) + 1) * 255000;
        proof {
            lemma_fundamental_div_mod_converse(t as int, w as int, y as int, x as int);
            assert(bit == gray_bit(*img, n as int, x as int, y as int));
        }
        data.push(map_gray(bit));
        t = t + 1;
        x = x + 1;
        if x == w {
            proof {
                assert(y * w + w == (y + 1) * w) by (nonlinear_arith);
            }
            x = 0;
            y = y + 1;
        }
    }
    let out = PixelBuffer { width: w, height: h, channels: 1, data };
    proof {
        assert(out.data@.len() == w * h * 1);
        assert(out.wf());
        assert forall|xx: int, yy: int|
            0 <= xx < img.width && 0 <= yy < img.height implies out.data@[yy * img.width + xx]
            == bw_sample(gray_bit(*img, n as int, xx, yy)) by {
            let i = yy * w + xx;
            assert(0 <= i < w * h) by (nonlinear_arith)
                requires
                    0 <= xx < w,
                    0 <= yy < h,
                    i == yy * w + xx,
            ;
            lemma_fundamental_div_mod_converse(i, w as int, yy, xx);
        }
    }
    Ok(out)
}

/// Ordered dithering, colored mode: each channel of each pixel is compared
/// on its own against the pixel's tiled threshold and mapped to 0 or 255.
/// Fails, before any pixel is read, exactly when the matrix size is
/// unsupported.
pub fn dither_colored(n: usize, img: &PixelBuffer) -> (r: Result<PixelBuffer, DitherError>)
    requires
        img.wf(),
        img.channels == 3,
    ensures
        match r {
            Ok(out) => supported_size(n as int) && is_colored_output(out, *img, n as int),
            Err(e) => !supported_size(n as int) && e == DitherError::Configuration(
                ConfigurationError::UnsupportedMatrixSize,
            ),
        },
{
    let matrix = match threshold_matrix(n) {
        Ok(m) => m,
        Err(e) => {
            return Err(e);
        },
    };
    let w = img.width;
    let h = img.height;
    let wh = img.pixel_count();
    let len = img.data.len();
    let mut data: Vec<u8> = Vec::new();
    let mut t: usize = 0;
    let mut x: usize = 0;
    let mut y: usize = 0;
    while t < wh
        invariant
            img.wf(),
            img.channels == 3,
            supported_size(n as int),
            matrix@ == matrix_spec(n as int),
            w == img.width,
            h == img.height,
            wh == w * h,
            len == img.data@.len(),
            t == y * w + x,
            t <= wh,
            x < w || x == 0,
            y <= h,
            data@.len() == 3 * t,
            forall|i: int|
                0 <= i < data@.len() ==> data@[i] == bw_sample(
                    channel_bit(
                        *img,
                        n as int,
                        (i / 3) % (w as int),
                        (i / 3) / (w as int),
                        i % 3,
                    ),
                ),
        decreases wh - t,
    {
        proof {
            assert(y < h && x < w) by (nonlinear_arith)
                requires
                    t == y * w + x,
                    t < w * h,
                    x < w || x == 0,
                    0 <= x,
                    0 <= y,
                    y <= h,
            ;
            assert(3 * t + 2 < w * h * 3) by (nonlinear_arith)
                requires
                    t < w * h,
            ;
            assert(3 * t + 2 < len);
        }
        let idx: usize = 3 * t;
        let m = rank_at(&matrix, n, x, y);
        proof {
            assert((n as int) * (n as int) <= 4096);
            assert(forall|s: int|
                0 <= s <= 255 ==> #[trigger] (s * ((n as int) * (n as int))) <= 255 * 4096)
                by (nonlinear_arith)
                requires
                    0 <= (n as int) * (n as int) <= 4096,
            ;
        }
        let nn: u64 = (n as u64) * (n as u64);
        let thr: u64 = ((m as u64) + 1) * 255;
        let s0 = img.data[idx];
        let s1 = img.data[idx + 1];
        let s2 = img.data[idx + 2];
        let b0: bool = (s0 as u64) * nn >= thr;
        let b1: bool = (s1 as u64) * nn >= thr;
        let b2: bool = (s2 as u64) * nn >= thr;
        proof {
            lemma_fundamental_div_mod_converse(t as int, w as int, y as int, x as int);
            assert((y * w + x) * 3 == 3 * t);
            assert(b0 == channel_bit(*img, n as int, x as int, y as int, 0));
            assert(b1 == channel_bit(*img, n as int, x as int, y as int, 1));
            assert(b2 == channel_bit(*img, n as int, x as int, y as int, 2));
        }
        data.push(map_gray(b0));
        data.push(map_gray(b1));
        data.push(map_gray(b2));
        proof {
            assert forall|i: int| 3 * t <= i < 3 * t + 3 implies data@[i] == bw_sample(
                channel_bit(*img, n as int, (i / 3) % (w as int), (i / 3) / (w as int), i % 3),
            ) by {
                lemma_fundamental_div_mod_converse(i, 3, t as int, i - 3 * t);
                assert(i / 3 == t && i % 3 == i - 3 * t);
            }
        }
        t = t + 1;
        x = x + 1;
        if x == w {
            proof {
                assert(y * w + w == (y + 1) * w) by (nonlinear_arith);
            }
            x = 0;
            y = y + 1;
        }
    }
    let out = PixelBuffer { width: w, height: h, channels: 3, data };
    proof {
        assert(out.data@.len() == 3 * (w * h) == w * h * 3);
        assert(out.wf());
        assert forall|xx: int, yy: int, c: int|
            0 <= xx < img.width && 0 <= yy < img.height && 0 <= c < 3 implies out.data@[(yy
            * img.width + xx) * 3 + c] == bw_sample(channel_bit(*img, n as int, xx, yy, c)) by {
            let p = yy * w + xx;
            assert(0 <= p < w * h) by (nonlinear_arith)
                requires
                    0 <= xx < w,
                    0 <= yy < h,
                    p == yy * w + xx,
            ;
            let i = p * 3 + c;
            assert(0 <= i < 3 * (w * h));
            lemma_fundamental_div_mod_converse(i, 3, p, c);
            assert(i / 3 == p && i % 3 == c);
            lemma_fundamental_div_mod_converse(p, w as int, yy, xx);
        }
    }
    Ok(out)
}

/// Ordered dithering, duotone mode: the grayscale decision of each pixel
/// selects one of the two given colors. Fails, before any pixel is read,
/// exactly when the matrix size is unsupported.
pub fn dither_duoton(n: usize, img: &PixelBuffer, low: [u8; 3], high: [u8; 3]) -> (r: Result<
    PixelBuffer,
    DitherError,
>)
    requires
        img.wf(),
    ensures
        match r {
            Ok(out) => supported_size(n as int) && is_duotone_output(out, *img, n as int, low, high),
            Err(e) => !supported_size(n as int) && e == DitherError::Configuration(
                ConfigurationError::UnsupportedMatrixSize,
            ),
        },
{
    let matrix = match threshold_matrix(n) {
        Ok(m) => m,
        Err(e) => {
            return Err(e);
        },
    };
    let w = img.width;
    let h = img.height;
    let wh = img.pixel_count();
    let mut data: Vec<u8> = Vec::new();
    let mut t: usize = 0;
    let mut x: usize = 0;
    let mut y: usize = 0;
    while t < wh
        invariant
            img.wf(),
            supported_size(n as int),
            matrix@ == matrix_spec(n as int),
            w == img.width,
            h == img.height,
            wh == w * h,
            t == y * w + x,
            t <= wh,
            x < w || x == 0,
            y <= h,
            data@.len() == 3 * t,
            forall|i: int|
                0 <= i < data@.len() ==> data@[i] == duotone_sample(
                    gray_bit(*img, n as int, (i / 3) % (w as int), (i / 3) / (w as int)),
                    low,
                    high,
                    i % 3,
                ),
        decreases wh - t,
    {
        proof {
            assert(y < h && x < w) by (nonlinear_arith)
                requires
                    t == y * w + x,
                    t < w * h,
                    x < w || x == 0,
                    0 <= x,
                    0 <= y,
                    y <= h,
            ;
            assert(t < img.width * img.height);
        }
        let lm = pixel_luma_millis(img, t);
        let m = rank_at(&matrix, n, x, y);
        proof {
            assert((n as int) * (n as int) <= 4096);
            assert((lm as int) * ((n as int) * (n as int)) <= 255000 * 4096) by (nonlinear_arith)
                requires
                    0 <= lm <= 255000,
                    0 <= (n as int) * (n as int) <= 4096,
            ;
        }
        let nn: u64 = (n as u64) * (n as u64);
        let bit: bool = (lm as u64) * nn >= ((m as u64) + 1) * 255000;
        proof {
            lemma_fundamental_div_mod_converse(t as int, w as int, y as int, x as int);
            assert(bit == gray_bit(*img, n as int, x as int, y as int));
        }
        let color = map_duotone(bit, &low, &high);
        data.push(color[0]);
        data.push(color[1]);
        data.push(color[2]);
        proof {
            assert forall|i: int| 3 * t <= i < 3 * t + 3 implies data@[i] == duotone_sample(
                gray_bit(*img, n as int, (i / 3) % (w as int), (i / 3) / (w as int)),
                low,
                high,
                i % 3,
            ) by {
                lemma_fundamental_div_mod_converse(i, 3, t as int, i - 3 * t);
                assert(i / 3 == t && i % 3 == i - 3 * t);
            }
        }
        t = t + 1;
        x = x + 1;
        if x == w {
            proof {
                assert(y * w + w == (y + 1) * w) by (nonlinear_arith);
            }
            x = 0;
            y = y + 1;
        }
    }
    let out = PixelBuffer { width: w, height: h, channels: 3, data };
    proof {
        assert(out.data@.len() == 3 * (w * h) == w * h * 3);
        assert(out.wf());
        assert forall|xx: int, yy: int, c: int|
            0 <= xx < img.width && 0 <= yy < img.height && 0 <= c < 3 implies out.data@[(yy
            * img.width + xx) * 3 + c] == duotone_sample(
            gray_bit(*img, n as int, xx, yy),
            low,
            high,
            c,
        ) by {
            let p = yy * w + xx;
            assert(0 <= p < w * h) by (nonlinear_arith)
                requires
                    0 <= xx < w,
                    0 <= yy < h,
                    p == yy * w + xx,
            ;
            let i = p * 3 + c;
            assert(0 <= i < 3 * (w * h));
            lemma_fundamental_div_mod_converse(i, 3, p, c);
            assert(i / 3 == p && i % 3 == c);
            lemma_fundamental_div_mod_converse(p, w as int, yy, xx);
        }
    }
    Ok(out)
}

/// Purity of the ordered engine: the output is a pure function of the input
/// buffer, the matrix size and the mode, so two grayscale runs on identical
/// arguments produce byte-identical buffers.
pub proof fn lemma_ordered_purity_gray(img: PixelBuffer, n: int, r1: PixelBuffer, r2: PixelBuffer)
    requires
        img.wf(),
        is_gray_output(r1, img, n),
        is_gray_output(r2, img, n),
    ensures
        r1.width == r2.width,
        r1.height == r2.height,
        r1.channels == r2.channels,
        r1.data@ == r2.data@,
{
    let w = img.width as int;
    let h = img.height as int;
    assert(r1.data@.len() == w * h * 1 && r2.data@.len() == w * h * 1);
    assert forall|i: int| 0 <= i < r1.data@.len() implies r1.data@[i] == r2.data@[i] by {
        assert(w > 0 && h > 0) by (nonlinear_arith)
            requires
                0 <= i < w * h * 1,
                w >= 0,
                h >= 0,
        ;
        let x = i % w;
        let y = i / w;
        vstd::arithmetic::div_mod::lemma_mod_division_less_than_divisor(i, w);
        vstd::arithmetic::div_mod::lemma_div_pos_is_pos(i, w);
        vstd::arithmetic::div_mod::lemma_multiply_divide_lt(i, w, h);
        vstd::arithmetic::div_mod::lemma_fundamental_div_mod(i, w);
        assert(0 <= x < w && 0 <= y < h);
        assert(i == y * w + x) by (nonlinear_arith)
            requires
                i == w * y + x,
        ;
        assert(r1.data@[y * w + x] == bw_sample(gray_bit(img, n, x, y)));
        assert(r2.data@[y * w + x] == bw_sample(gray_bit(img, n, x, y)));
    }
    assert(r1.data@ =~= r2.data@);
}

/// Purity of the ordered engine in colored mode: two runs on identical
/// arguments produce byte-identical buffers.
pub proof fn lemma_ordered_purity_colored(
    img: PixelBuffer,
    n: int,
    r1: PixelBuffer,
    r2: PixelBuffer,
)
    requires
        img.wf(),
        img.channels == 3,
        is_colored_output(r1, img, n),
        is_colored_output(r2, img, n),
    ensures
        r1.width == r2.width,
        r1.height == r2.height,
        r1.channels == r2.channels,
        r1.data@ == r2.data@,
{
    let w = img.width as int;
    let h = img.height as int;
    assert(r1.data@.len() == w * h * 3 && r2.data@.len() == w * h * 3);
    assert forall|i: int| 0 <= i < r1.data@.len() implies r1.data@[i] == r2.data@[i] by {
        assert(w > 0 && h > 0) by (nonlinear_arith)
            requires
                0 <= i < w * h * 3,
                w >= 0,
                h >= 0,
        ;
        let p = i / 3;
        let c = i % 3;
        vstd::arithmetic::div_mod::lemma_mod_division_less_than_divisor(i, 3);
        vstd::arithmetic::div_mod::lemma_div_pos_is_pos(i, 3);
        assert(w * h * 3 == 3 * (w * h)) by (nonlinear_arith);
        vstd::arithmetic::div_mod::lemma_multiply_divide_lt(i, 3, w * h);
        vstd::arithmetic::div_mod::lemma_fundamental_div_mod(i, 3);
        assert(0 <= p < w * h && 0 <= c < 3);
        let x = p % w;
        let y = p / w;
        vstd::arithmetic::div_mod::lemma_mod_division_less_than_divisor(p, w);
        vstd::arithmetic::div_mod::lemma_div_pos_is_pos(p, w);
        vstd::arithmetic::div_mod::lemma_multiply_divide_lt(p, w, h);
        vstd::arithmetic::div_mod::lemma_fundamental_div_mod(p, w);
        assert(0 <= x < w && 0 <= y < h);
        assert(p == y * w + x) by (nonlinear_arith)
            requires
                p == w * y + x,
        ;
        assert(i == (y * w + x) * 3 + c);
        assert(r1.data@[(y * w + x) * 3 + c] == bw_sample(channel_bit(img, n, x, y, c)));
        assert(r2.data@[(y * w + x) * 3 + c] == bw_sample(channel_bit(img, n, x, y, c)));
    }
    assert(r1.data@ =~= r2.data@);
}

/// Purity of the ordered engine in duotone mode: two runs on identical
/// arguments produce byte-identical buffers.
pub proof fn lemma_ordered_purity_duotone(
    img: PixelBuffer,
    n: int,
    low: [u8; 3],
    high: [u8; 3],
    r1: PixelBuffer,
    r2: PixelBuffer,
)
    requires
        img.wf(),
        is_duotone_output(r1, img, n, low, high),
        is_duotone_output(r2, img, n, low, high),
    ensures
        r1.width == r2.width,
        r1.height == r2.height,
        r1.channels == r2.channels,
        r1.data@ == r2.data@,
{
    let w = img.width as int;
    let h = img.height as int;
    assert(r1.data@.len() == w * h * 3 && r2.data@.len() == w * h * 3);
    assert forall|i: int| 0 <= i < r1.data@.len() implies r1.data@[i] == r2.data@[i] by {
        assert(w > 0 && h > 0) by (nonlinear_arith)
            requires
                0 <= i < w * h * 3,
                w >= 0,
                h >= 0,
        ;
        let p = i / 3;
        let c = i % 3;
        vstd::arithmetic::div_mod::lemma_mod_division_less_than_divisor(i, 3);
        vstd::arithmetic::div_mod::lemma_div_pos_is_pos(i, 3);
        assert(w * h * 3 == 3 * (w * h)) by (nonlinear_arith);
        vstd::arithmetic::div_mod::lemma_multiply_divide_lt(i, 3, w * h);
        vstd::arithmetic::div_mod::lemma_fundamental_div_mod(i, 3);
        assert(0 <= p < w * h && 0 <= c < 3);
        let x = p % w;
        let y = p / w;
        vstd::arithmetic::div_mod::lemma_mod_division_less_than_divisor(p, w);
        vstd::arithmetic::div_mod::lemma_div_pos_is_pos(p, w);
        vstd::arithmetic::div_mod::lemma_multiply_divide_lt(p, w, h);
        vstd::arithmetic::div_mod::lemma_fundamental_div_mod(p, w);
        assert(0 <= x < w && 0 <= y < h);
        assert(p == y * w + x) by (nonlinear_arith)
            requires
                p == w * y + x,
        ;
        assert(i == (y * w + x) * 3 + c);
        assert(r1.data@[(y * w + x) * 3 + c] == duotone_sample(
            gray_bit(img, n, x, y),
            low,
            high,
            c,
        ));
        assert(r2.data@[(y * w + x) * 3 + c] == duotone_sample(
            gray_bit(img, n, x, y),
            low,
            high,
            c,
        ));
    }
    assert(r1.data@ =~= r2.data@);
}

/// Duotone with black as the low color and white as the high color
/// reproduces the grayscale decisions exactly, only spread over the three
/// channels: the re-coloring is independent of the thresholding.
pub proof fn lemma_ordered_duotone_black_white(
    img: PixelBuffer,
    n: int,
    low: [u8; 3],
    high: [u8; 3],
    out_d: PixelBuffer,
    out_g: PixelBuffer,
)
    requires
        img.wf(),
        forall|c: int| 0 <= c < 3 ==> low@[c] == 0,
        forall|c: int| 0 <= c < 3 ==> high@[c] == 255,
        is_duotone_output(out_d, img, n, low, high),
        is_gray_output(out_g, img, n),
    ensures
        forall|x: int, y: int, c: int|
            0 <= x < img.width && 0 <= y < img.height && 0 <= c < 3 ==> #[trigger] out_d.data@[(y
                * img.width + x) * 3 + c] == out_g.data@[y * img.width + x],
{
    assert forall|x: int, y: int, c: int|
        0 <= x < img.width && 0 <= y < img.height && 0 <= c < 3 implies #[trigger] out_d.data@[(y
        * img.width + x) * 3 + c] == out_g.data@[y * img.width + x] by {
        crate::mapper::lemma_duotone_black_white(gray_bit(img, n, x, y), low, high, c);
    }
}

} // verus!
