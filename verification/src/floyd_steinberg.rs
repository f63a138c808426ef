//! The error diffusion engine: a Floyd-Steinberg raster scan. Pixels are
//! visited in row-major order; each one is quantized to the nearer of the
//! two levels and the residual is split into four shares that are added to
//! the still-pending forward neighbors (right, below-left, below,
//! below-right). Shares aimed outside the image are dropped; every pixel is
//! quantized exactly once. The accumulator works on whole sample units in a
//! wide signed domain, and every addition is clamped to that domain, never
//! wrapped.

use vstd::prelude::*;

use vstd::arithmetic::div_mod::lemma_div_is_ordered;
use vstd::arithmetic::div_mod::lemma_div_multiples_vanish;
use vstd::arithmetic::div_mod::lemma_fundamental_div_mod_converse;

use crate::mapper::duotone_sample;
use crate::mapper::map_duotone;
use crate::pixel::PixelBuffer;

verus! {

/// Lower edge of the accumulator domain.
pub const ACC_MIN: i32 = -32768;

/// Upper edge of the accumulator domain.
pub const ACC_MAX: i32 = 32767;

/// Quantization of an accumulated value: white from the midpoint up, black
/// below it.
pub open spec fn quantize(v: int) -> int {
    if v >= 128 {
        255
    } else {
        0
    }
}

/// Clamp into the accumulator domain: sums that leave the representable
/// range saturate instead of wrapping.
pub open spec fn clamp_acc(v: int) -> int {
    if v < ACC_MIN as int {
        ACC_MIN as int
    } else if v > ACC_MAX as int {
        ACC_MAX as int
    } else {
        v
    }
}

/// `k/16` of the residual `e`, rounded toward zero.
pub open spec fn share(e: int, k: int) -> int {
    if e >= 0 {
        (k * e) / 16
    } else {
        -((k * (-e)) / 16)
    }
}

/// Share handed to the right neighbor: 7/16 of the residual.
pub open spec fn share_right(e: int) -> int {
    share(e, 7)
}

/// Share handed to the neighbor below-left: 3/16 of the residual.
pub open spec fn share_below_left(e: int) -> int {
    share(e, 3)
}

/// Share handed to the neighbor below: 5/16 of the residual.
pub open spec fn share_below(e: int) -> int {
    share(e, 5)
}

/// Share handed to the neighbor below-right: what remains of the residual
/// once the other three shares are taken, close to 1/16 of it. Giving the
/// last neighbor the exact remainder is what keeps the split lossless.
pub open spec fn share_below_right(e: int) -> int {
    e - share_right(e) - share_below_left(e) - share_below(e)
}

/// Error conservation: at every quantized pixel the four propagated shares
/// sum exactly to the residual, whatever its sign or size. No error is
/// created or destroyed by the split itself; error only leaves the image
/// where a share's target lies outside it.
pub proof fn lemma_error_conservation(e: int)
    ensures
        share_right(e) + share_below_left(e) + share_below(e) + share_below_right(e) == e,
{
}

/// Each weighted share really is its `k/16` slice of the residual, up to
/// the rounding the integer domain forces: sixteen times the share differs
/// from `k` times the residual by less than sixteen, and the share never
/// exceeds the residual in magnitude.
pub proof fn lemma_share_approximates(e: int, k: int)
    requires
        1 <= k <= 7,
    ensures
        k * e - 15 <= 16 * share(e, k) <= k * e + 15,
{
    if e >= 0 {
        vstd::arithmetic::div_mod::lemma_fundamental_div_mod(k * e, 16);
        vstd::arithmetic::div_mod::lemma_mod_division_less_than_divisor(k * e, 16);
        assert(k * e >= 0) by (nonlinear_arith)
            requires
                k >= 1,
                e >= 0,
        ;
    } else {
        let p = k * (-e);
        assert(p >= 0 && p == -(k * e)) by (nonlinear_arith)
            requires
                k >= 1,
                e < 0,
                p == k * (-e),
        ;
        vstd::arithmetic::div_mod::lemma_fundamental_div_mod(p, 16);
        vstd::arithmetic::div_mod::lemma_mod_division_less_than_divisor(p, 16);
    }
}

/// Boundary safety: the scan quantizes every pixel to one of the two
/// levels; no pixel is skipped and none is quantized twice, whatever the
/// image size.
pub proof fn lemma_every_pixel_quantized(seeds: Seq<int>, w: int, h: int, t: int)
    ensures
        fs_out(seeds, w, h, t) == 0 || fs_out(seeds, w, h, t) == 255,
{
}

/// One pixel step of the raster scan at flat index `t`: quantize the cell,
/// then add the residual shares to each forward neighbor that lies inside
/// the image, clamping each sum; out-of-range targets are dropped.
pub open spec fn fs_step(buf: Seq<int>, w: int, h: int, t: int) -> Seq<int> {
    let x = t % w;
    let y = t / w;
    let v = buf[t];
    let q = quantize(v);
    let e = v - q;
    let b0 = buf.update(t, q);
    let b1 = if x + 1 < w {
        b0.update(t + 1, clamp_acc(b0[t + 1] + share_right(e)))
    } else {
        b0
    };
    let b2 = if x >= 1 && y + 1 < h {
        b1.update(t + w - 1, clamp_acc(b1[t + w - 1] + share_below_left(e)))
    } else {
        b1
    };
    let b3 = if y + 1 < h {
        b2.update(t + w, clamp_acc(b2[t + w] + share_below(e)))
    } else {
        b2
    };
    if x + 1 < w && y + 1 < h {
        b3.update(t + w + 1, clamp_acc(b3[t + w + 1] + share_below_right(e)))
    } else {
        b3
    }
}

/// Accumulator state after the first `t` pixels of the scan over seeds.
pub open spec fn fs_buf(seeds: Seq<int>, w: int, h: int, t: int) -> Seq<int>
    decreases t,
{
    if t <= 0 {
        seeds
    } else {
        fs_step(fs_buf(seeds, w, h, t - 1), w, h, t - 1)
    }
}

/// The level pixel `t` is quantized to: the quantization of its accumulated
/// value at the moment the scan reaches it.
pub open spec fn fs_out(seeds: Seq<int>, w: int, h: int, t: int) -> int {
    quantize(fs_buf(seeds, w, h, t)[t])
}

/// The integer view of an accumulator vector.
pub open spec fn int_view(s: Seq<i32>) -> Seq<int> {
    s.map_values(|v: i32| v as int)
}

/// The diffusion seed of pixel `t`: its raw sample for a single-channel
/// buffer, else the standard integer luma of its RGB samples.
pub open spec fn seed_luma(img: PixelBuffer, t: int) -> int {
    crate::bayer::luma_millis(img, t) / 1000
}

/// The seed row for grayscale and duotone diffusion.
pub open spec fn luma_seeds(img: PixelBuffer) -> Seq<int> {
    Seq::new((img.width * img.height) as nat, |t: int| seed_luma(img, t))
}

/// The seed row for one channel of colored diffusion.
pub open spec fn channel_seeds(img: PixelBuffer, c: int) -> Seq<int> {
    Seq::new((img.width * img.height) as nat, |t: int| img.data@[3 * t + c] as int)
}

/// `out` is the Floyd-Steinberg grayscale dithering of `img`.
pub open spec fn is_gray_output(out: PixelBuffer, img: PixelBuffer) -> bool {
    &&& out.wf()
    &&& out.width == img.width
    &&& out.height == img.height
    &&& out.channels == 1
    &&& forall|t: int|
        0 <= t < img.width * img.height ==> out.data@[t] as int == fs_out(
            luma_seeds(img),
            img.width as int,
            img.height as int,
            t,
        )
}

/// `out` is the Floyd-Steinberg colored dithering of `img`: each channel
/// diffused independently with its own accumulator row.
pub open spec fn is_colored_output(out: PixelBuffer, img: PixelBuffer) -> bool {
    &&& out.wf()
    &&& out.width == img.width
    &&& out.height == img.height
    &&& out.channels == 3
    &&& forall|t: int, c: int|
        0 <= t < img.width * img.height && 0 <= c < 3 ==> out.data@[3 * t + c] as int == fs_out(
            channel_seeds(img, c),
            img.width as int,
            img.height as int,
            t,
        )
}

/// `out` is the Floyd-Steinberg duotone dithering of `img`: the grayscale
/// decision of each pixel selects one of the two given colors.
pub open spec fn is_duotone_output(
    out: PixelBuffer,
    img: PixelBuffer,
    low: [u8; 3],
    high: [u8; 3],
) -> bool {
    &&& out.wf()
    &&& out.width == img.width
    &&& out.height == img.height
    &&& out.channels == 3
    &&& forall|t: int, c: int|
        0 <= t < img.width * img.height && 0 <= c < 3 ==> #[trigger] out.data@[3 * t + c]
            == duotone_sample(
            fs_out(luma_seeds(img), img.width as int, img.height as int, t) == 255,
            low,
            high,
            c,
        )
}

/// Computes one weighted share of a residual, rounding toward zero.
fn share_exec(e: i32, k: u32) -> (r: i32)
    requires
        -40000 <= e <= 40000,
        1 <= k <= 7,
    ensures
        r as int == share(e as int, k as int),
        -17500 <= r <= 17500,
{
    if e >= 0 {
        proof {
            assert((k as int) * (e as int) <= 280000) by (nonlinear_arith)
                requires
                    0 <= e <= 40000,
                    1 <= k <= 7,
            ;
        }
        let m: u32 = k * (e as u32);
        proof {
            lemma_div_is_ordered(m as int, 280000, 16);
        }
        (m / 16) as i32
    } else {
        proof {
            assert((k as int) * (-(e as int)) <= 280000) by (nonlinear_arith)
                requires
                    -40000 <= e < 0,
                    1 <= k <= 7,
            ;
        }
        let m: u32 = k * ((-e) as u32);
        proof {
            lemma_div_is_ordered(m as int, 280000, 16);
        }
        -((m / 16) as i32)
    }
}

/// Adds a share to an accumulator cell, clamping into the domain.
fn clamp_add(c: i32, s: i32) -> (r: i32)
    requires
        ACC_MIN <= c <= ACC_MAX,
        -150000 <= s <= 150000,
    ensures
        r as int == clamp_acc(c as int + s as int),
        ACC_MIN <= r <= ACC_MAX,
{
    let sum: i32 = c + s;
    if sum < ACC_MIN {
        ACC_MIN
    } else if sum > ACC_MAX {
        ACC_MAX
    } else {
        sum
    }
}

/// Runs the raster scan over one seed row: returns the quantized level of
/// every pixel, in scan order.
#[verifier::rlimit(100)]
fn fs_scan(seeds: &Vec<i32>, w: usize, h: usize) -> (out: Vec<u8>)
    requires
        seeds@.len() == w * h,
        forall|i: int| 0 <= i < seeds@.len() ==> 0 <= #[trigger] seeds@[i] <= 255,
    ensures
        out@.len() == w * h,
        forall|t: int|
            0 <= t < out@.len() ==> out@[t] as int == fs_out(
                int_view(seeds@),
                w as int,
                h as int,
                t,
            ),
{
    let ghost s0 = int_view(seeds@);
    let wh = seeds.len();
    let mut buf: Vec<i32> = Vec::new();
    let mut i: usize = 0;
    while i < wh
        invariant
            i <= wh,
            wh == seeds@.len(),
            buf@.len() == i,
            forall|j: int| 0 <= j < i ==> buf@[j] == seeds@[j],
        decreases wh - i,
    {
        buf.push(seeds[i]);
        i = i + 1;
    }
    let ghost mut gbuf = s0;
    let mut out: Vec<u8> = Vec::new();
    let mut t: usize = 0;
    let mut x: usize = 0;
    let mut y: usize = 0;
    while t < wh
        invariant
            wh == seeds@.len(),
            wh == w * h,
            s0 == int_view(seeds@),
            t == y * w + x,
            t <= wh,
            x < w || x == 0,
            y <= h,
            buf@.len() == wh,
            gbuf.len() == wh,
            gbuf == fs_buf(s0, w as int, h as int, t as int),
            forall|j: int| 0 <= j < wh ==> buf@[j] as int == gbuf[j],
            forall|j: int| 0 <= j < wh ==> ACC_MIN <= #[trigger] buf@[j] <= ACC_MAX,
            out@.len() == t,
            forall|j: int|
                0 <= j < t ==> out@[j] as int == fs_out(s0, w as int, h as int, j),
        decreases wh - t,
    {
        proof {
            assert(y < h && x < w) by (nonlinear_arith)
                requires
                    t == y * w + x,
                    t < w * h,
                    x < w || x == 0,
                    0 <= x,
                    0 <= y,
                    y <= h,
            ;
        }
        let ghost g_pre = gbuf;
        let v: i32 = buf[t];
        let q: i32 = if v >= 128 {
            255
        } else {
            0
        };
        out.push(q as u8);
        buf.set(t, q);
        proof {
            gbuf = gbuf.update(t as int, q as int);
        }
        let e: i32 = v - q;
        let s7 = share_exec(e, 7);
        let s3 = share_exec(e, 3);
        let s5 = share_exec(e, 5);
        let sbr: i32 = e - s7 - s3 - s5;
        proof {
            assert(s7 as int == share_right(e as int));
            assert(s3 as int == share_below_left(e as int));
            assert(s5 as int == share_below(e as int));
            assert(sbr as int == share_below_right(e as int));
        }
        if x + 1 < w {
            proof {
                assert(t + 1 < w * h) by (nonlinear_arith)
                    requires
                        t == y * w + x,
                        x + 1 < w,
                        y < h,
                        0 <= x,
                        0 <= y,
                ;
            }
            let j = t + 1;
            let nv = clamp_add(buf[j], s7);
            buf.set(j, nv);
            proof {
                gbuf = gbuf.update(j as int, clamp_acc(gbuf[j as int] + share_right(e as int)));
            }
        }
        if x >= 1 && y + 1 < h {
            proof {
                assert(t + w - 1 < w * h) by (nonlinear_arith)
                    requires
                        t == y * w + x,
                        1 <= x < w,
                        y + 1 < h,
                        0 <= y,
                ;
            }
            let j = t + w - 1;
            let nv = clamp_add(buf[j], s3);
            buf.set(j, nv);
            proof {
                gbuf = gbuf.update(
                    j as int,
                    clamp_acc(gbuf[j as int] + share_below_left(e as int)),
                );
            }
        }
        if y + 1 < h {
            proof {
                assert(t + w < w * h) by (nonlinear_arith)
                    requires
                        t == y * w + x,
                        0 <= x < w,
                        y + 1 < h,
                        0 <= y,
                ;
            }
            let j = t + w;
            let nv = clamp_add(buf[j], s5);
            buf.set(j, nv);
            proof {
                gbuf = gbuf.update(j as int, clamp_acc(gbuf[j as int] + share_below(e as int)));
            }
        }
        if x + 1 < w {
            if y + 1 < h {
                proof {
                    assert(t + w + 1 < w * h) by (nonlinear_arith)
                        requires
                            t == y * w + x,
                            0 <= x,
                            x + 1 < w,
                            y + 1 < h,
                            0 <= y,
                    ;
                }
                let j = t + w + 1;
                let nv = clamp_add(buf[j], sbr);
                buf.set(j, nv);
                proof {
                    gbuf = gbuf.update(
                        j as int,
                        clamp_acc(gbuf[j as int] + share_below_right(e as int)),
                    );
                }
            }
        }
        proof {
            lemma_fundamental_div_mod_converse(t as int, w as int, y as int, x as int);
            assert(t as int % (w as int) == x as int && t as int / (w as int) == y as int);
            assert(g_pre[t as int] == v as int);
            assert(gbuf == fs_step(g_pre, w as int, h as int, t as int));
            assert(fs_buf(s0, w as int, h as int, t as int + 1) == fs_step(
                g_pre,
                w as int,
                h as int,
                t as int,
            ));
            assert(out@[t as int] as int == fs_out(s0, w as int, h as int, t as int));
        }
        t = t + 1;
        x = x + 1;
        if x == w {
            proof {
                assert(y * w + w == (y + 1) * w) by (nonlinear_arith);
            }
            x = 0;
            y = y + 1;
        }
    }
    out
}

/// Builds the luma seed row of an image: the raw samples of a single-channel
/// buffer, else the integer luma of each RGB pixel.
fn luma_seed_vec(img: &PixelBuffer) -> (r: Vec<i32>)
    requires
        img.wf(),
    ensures
        r@.len() == img.width * img.height,
        int_view(r@) == luma_seeds(*img),
        forall|i: int| 0 <= i < r@.len() ==> 0 <= #[trigger] r@[i] <= 255,
{
    let wh = img.pixel_count();
    let len = img.data.len();
    let mut r: Vec<i32> = Vec::new();
    let mut t: usize = 0;
    while t < wh
        invariant
            img.wf(),
            wh == img.width * img.height,
            len == img.data@.len(),
            r@.len() == t,
            t <= wh,
            forall|i: int| 0 <= i < t ==> #[trigger] r@[i] as int == seed_luma(*img, i),
            forall|i: int| 0 <= i < t ==> 0 <= #[trigger] r@[i] <= 255,
        decreases wh - t,
    {
        if img.channels == 1 {
            proof {
                assert(t < img.width * img.height * 1);
            }
            let s = img.data[t];
            proof {
                lemma_div_multiples_vanish(img.data@[t as int] as int, 1000);
            }
            r.push(s as i32);
        } else {
            proof {
                assert(3 * t + 2 < img.width * img.height * 3) by (nonlinear_arith)
                    requires
                        t < img.width * img.height,
                ;
                assert(3 * t + 2 < len);
            }
            let idx: usize = 3 * t;
            let lm: u32 = 299 * (img.data[idx] as u32) + 587 * (img.data[idx + 1] as u32) + 114 * (
            img.data[idx + 2] as u32);
            let s: u32 = lm / 1000;
            proof {
                lemma_div_is_ordered(lm as int, 255000, 1000);
            }
            r.push(s as i32);
        }
        t = t + 1;
    }
    proof {
        assert(int_view(r@) =~= luma_seeds(*img));
    }
    r
}

/// Builds the seed row of one channel of an RGB image.
fn channel_seed_vec(img: &PixelBuffer, c: usize) -> (r: Vec<i32>)
    requires
        img.wf(),
        img.channels == 3,
        c < 3,
    ensures
        r@.len() == img.width * img.height,
        int_view(r@) == channel_seeds(*img, c as int),
        forall|i: int| 0 <= i < r@.len() ==> 0 <= #[trigger] r@[i] <= 255,
{
    let wh = img.pixel_count();
    let len = img.data.len();
    let mut r: Vec<i32> = Vec::new();
    let mut t: usize = 0;
    while t < wh
        invariant
            img.wf(),
            img.channels == 3,
            c < 3,
            wh == img.width * img.height,
            len == img.data@.len(),
            r@.len() == t,
            t <= wh,
            forall|i: int|
                0 <= i < t ==> #[trigger] r@[i] as int == img.data@[3 * i + c] as int,
            forall|i: int| 0 <= i < t ==> 0 <= #[trigger] r@[i] <= 255,
        decreases wh - t,
    {
        proof {
            assert(3 * t + 2 < img.width * img.height * 3) by (nonlinear_arith)
                requires
                    t < img.width * img.height,
            ;
            assert(3 * t + 2 < len);
        }
        let s = img.data[3 * t + c];
        r.push(s as i32);
        t = t + 1;
    }
    proof {
        assert(int_view(r@) =~= channel_seeds(*img, c as int));
    }
    r
}

/// Floyd-Steinberg dithering, grayscale mode: the luma of every pixel is
/// diffused in raster order and quantized to black or white.
pub fn dither(img: &PixelBuffer) -> (out: PixelBuffer)
    requires
        img.wf(),
    ensures
        is_gray_output(out, *img),
{
    let w = img.width;
    let h = img.height;
    let seeds = luma_seed_vec(img);
    let data = fs_scan(&seeds, w, h);
    let out = PixelBuffer { width: w, height: h, channels: 1, data };
    proof {
        assert(out.data@.len() == w * h * 1);
    }
    out
}

/// Floyd-Steinberg dithering, colored mode: each channel is diffused
/// independently, with its own accumulator row, and the three results are
/// interleaved back into an RGB buffer.
pub fn dither_colored(img: &PixelBuffer) -> (out: PixelBuffer)
    requires
        img.wf(),
        img.channels == 3,
    ensures
        is_colored_output(out, *img),
{
    let w = img.width;
    let h = img.height;
    let wh = img.pixel_count();
    let sv0 = channel_seed_vec(img, 0);
    let sv1 = channel_seed_vec(img, 1);
    let sv2 = channel_seed_vec(img, 2);
    let r0 = fs_scan(&sv0, w, h);
    let r1 = fs_scan(&sv1, w, h);
    let r2 = fs_scan(&sv2, w, h);
    let mut data: Vec<u8> = Vec::new();
    let mut t: usize = 0;
    while t < wh
        invariant
            img.wf(),
            img.channels == 3,
            w == img.width,
            h == img.height,
            wh == w * h,
            r0@.len() == wh,
            r1@.len() == wh,
            r2@.len() == wh,
            forall|j: int|
                0 <= j < wh ==> #[trigger] r0@[j] as int == fs_out(
                    channel_seeds(*img, 0),
                    w as int,
                    h as int,
                    j,
                ),
            forall|j: int|
                0 <= j < wh ==> #[trigger] r1@[j] as int == fs_out(
                    channel_seeds(*img, 1),
                    w as int,
                    h as int,
                    j,
                ),
            forall|j: int|
                0 <= j < wh ==> #[trigger] r2@[j] as int == fs_out(
                    channel_seeds(*img, 2),
                    w as int,
                    h as int,
                    j,
                ),
            data@.len() == 3 * t,
            t <= wh,
            forall|i: int|
                0 <= i < data@.len() ==> #[trigger] data@[i] as int == fs_out(
                    channel_seeds(*img, i % 3),
                    w as int,
                    h as int,
                    i / 3,
                ),
        decreases wh - t,
    {
        data.push(r0[t]);
        data.push(r1[t]);
        data.push(r2[t]);
        proof {
            assert forall|i: int| 3 * t <= i < 3 * t + 3 implies #[trigger] data@[i] as int
                == fs_out(channel_seeds(*img, i % 3), w as int, h as int, i / 3) by {
                lemma_fundamental_div_mod_converse(i, 3, t as int, i - 3 * t);
                assert(i / 3 == t && i % 3 == i - 3 * t);
            }
        }
        t = t + 1;
    }
    let out = PixelBuffer { width: w, height: h, channels: 3, data };
    proof {
        assert(out.data@.len() == 3 * (w * h) == w * h * 3);
        assert(out.wf());
        assert forall|tt: int, c: int|
            0 <= tt < img.width * img.height && 0 <= c < 3 implies out.data@[3 * tt + c] as int
            == fs_out(channel_seeds(*img, c), w as int, h as int, tt) by {
            let i = 3 * tt + c;
            lemma_fundamental_div_mod_converse(i, 3, tt, c);
            assert(i / 3 == tt && i % 3 == c);
        }
    }
    out
}

/// Floyd-Steinberg dithering, duotone mode: the grayscale diffusion decides
/// each pixel, and the decision selects one of the two given colors.
pub fn dither_duoton(img: &PixelBuffer, low: [u8; 3], high: [u8; 3]) -> (out: PixelBuffer)
    requires
        img.wf(),
    ensures
        is_duotone_output(out, *img, low, high),
{
    let w = img.width;
    let h = img.height;
    let wh = img.pixel_count();
    let seeds = luma_seed_vec(img);
    let levels = fs_scan(&seeds, w, h);
    let mut data: Vec<u8> = Vec::new();
    let mut t: usize = 0;
    while t < wh
        invariant
            img.wf(),
            w == img.width,
            h == img.height,
            wh == w * h,
            levels@.len() == wh,
            forall|j: int|
                0 <= j < wh ==> #[trigger] levels@[j] as int == fs_out(
                    luma_seeds(*img),
                    w as int,
                    h as int,
                    j,
                ),
            data@.len() == 3 * t,
            t <= wh,
            forall|i: int|
                0 <= i < data@.len() ==> #[trigger] data@[i] == duotone_sample(
                    fs_out(luma_seeds(*img), w as int, h as int, i / 3) == 255,
                    low,
                    high,
                    i % 3,
                ),
        decreases wh - t,
    {
        let bit: bool = levels[t] == 255;
        proof {
            lemma_every_pixel_quantized(luma_seeds(*img), w as int, h as int, t as int);
            assert(bit == (fs_out(luma_seeds(*img), w as int, h as int, t as int) == 255));
        }
        let color = map_duotone(bit, &low, &high);
        data.push(color[0]);
        data.push(color[1]);
        data.push(color[2]);
        proof {
            assert forall|i: int| 3 * t <= i < 3 * t + 3 implies #[trigger] data@[i]
                == duotone_sample(
                fs_out(luma_seeds(*img), w as int, h as int, i / 3) == 255,
                low,
                high,
                i % 3,
            ) by {
                lemma_fundamental_div_mod_converse(i, 3, t as int, i - 3 * t);
                assert(i / 3 == t && i % 3 == i - 3 * t);
            }
        }
        t = t + 1;
    }
    let out = PixelBuffer { width: w, height: h, channels: 3, data };
    proof {
        assert(out.data@.len() == 3 * (w * h) == w * h * 3);
        assert(out.wf());
        assert forall|tt: int, c: int|
            0 <= tt < img.width * img.height && 0 <= c < 3 implies #[trigger] out.data@[3 * tt + c]
            == duotone_sample(
            fs_out(luma_seeds(*img), w as int, h as int, tt) == 255,
            low,
            high,
            c,
        ) by {
            let i = 3 * tt + c;
            lemma_fundamental_div_mod_converse(i, 3, tt, c);
            assert(i / 3 == tt && i % 3 == c);
        }
    }
    out
}

/// Duotone diffusion with black as the low color and white as the high
/// color reproduces the grayscale diffusion exactly, only spread over the
/// three channels: the re-coloring is independent of the engine.
pub proof fn lemma_diffused_duotone_black_white(
    img: PixelBuffer,
    low: [u8; 3],
    high: [u8; 3],
    out_d: PixelBuffer,
    out_g: PixelBuffer,
)
    requires
        img.wf(),
        forall|c: int| 0 <= c < 3 ==> low@[c] == 0,
        forall|c: int| 0 <= c < 3 ==> high@[c] == 255,
        is_duotone_output(out_d, img, low, high),
        is_gray_output(out_g, img),
    ensures
        forall|t: int, c: int|
            0 <= t < img.width * img.height && 0 <= c < 3 ==> #[trigger] out_d.data@[3 * t + c]
                == out_g.data@[t],
{
    let w = img.width as int;
    let h = img.height as int;
    assert forall|t: int, c: int|
        0 <= t < img.width * img.height && 0 <= c < 3 implies #[trigger] out_d.data@[3 * t + c]
        == out_g.data@[t] by {
        let bit = fs_out(luma_seeds(img), w, h, t) == 255;
        crate::mapper::lemma_duotone_black_white(bit, low, high, c);
        lemma_every_pixel_quantized(luma_seeds(img), w, h, t);
    }
}

} // verus!
