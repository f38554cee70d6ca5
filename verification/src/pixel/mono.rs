//! Greyscale renderer for Carta panels.
//!
//! Pipeline: RGBA → gamma-correct linear luminance → dither to the panel's 16 grey
//! levels → pack to the framebuffer format. Two tiers: ordered (Bayer 8×8) by default —
//! constant work per pixel and phase-stable across partial redraws, so re-dithering a
//! region does not shimmer — and Floyd–Steinberg for hi-fi full-region renders.

use vstd::prelude::*;
use crate::types::{PanelFormat, PanelKind, Rect, spec_bytes_per_pixel, spec_pack_grey};
use super::{
    PanelBuffer, PixelPipeline, RgbaSurface, convert_ok, origin_x, origin_y, source_readable,
    spec_written,
};

verus! {

/// Number of grey levels the panel resolves.
const LEVELS: i32 = 16;

/// Standard Bayer 8×8 ordered-dither matrix, values 0..=63.
pub const BAYER8: [[u8; 8]; 8] = [
    [0, 48, 12, 60, 3, 51, 15, 63],
    [32, 16, 44, 28, 35, 19, 47, 31],
    [8, 56, 4, 52, 11, 59, 7, 55],
    [40, 24, 36, 20, 43, 27, 39, 23],
    [2, 50, 14, 62, 1, 49, 13, 61],
    [34, 18, 46, 30, 33, 17, 45, 29],
    [10, 58, 6, 54, 9, 57, 5, 53],
    [42, 26, 38, 22, 41, 25, 37, 21],
];

/// sRGB byte → linear-light byte: entry `i` is `round(255 · L(i / 255))` for the sRGB
/// transfer function `L(c) = c / 12.92` when `c ≤ 0.04045` and `((c + 0.055) / 1.055)^2.4`
/// otherwise.
pub const SRGB_TO_LINEAR: [u8; 256] = [
      0,   0,   0,   0,   0,   0,   0,   1,   1,   1,   1,   1,   1,   1,   1,   1,
      1,   1,   2,   2,   2,   2,   2,   2,   2,   2,   3,   3,   3,   3,   3,   3,
      4,   4,   4,   4,   4,   5,   5,   5,   5,   6,   6,   6,   6,   7,   7,   7,
      8,   8,   8,   8,   9,   9,   9,  10,  10,  10,  11,  11,  12,  12,  12,  13,
     13,  13,  14,  14,  15,  15,  16,  16,  17,  17,  17,  18,  18,  19,  19,  20,
     20,  21,  22,  22,  23,  23,  24,  24,  25,  25,  26,  27,  27,  28,  29,  29,
     30,  30,  31,  32,  32,  33,  34,  35,  35,  36,  37,  37,  38,  39,  40,  41,
     41,  42,  43,  44,  45,  45,  46,  47,  48,  49,  50,  51,  51,  52,  53,  54,
     55,  56,  57,  58,  59,  60,  61,  62,  63,  64,  65,  66,  67,  68,  69,  70,
     71,  72,  73,  74,  76,  77,  78,  79,  80,  81,  82,  84,  85,  86,  87,  88,
     90,  91,  92,  93,  95,  96,  97,  99, 100, 101, 103, 104, 105, 107, 108, 109,
    111, 112, 114, 115, 116, 118, 119, 121, 122, 124, 125, 127, 128, 130, 131, 133,
    134, 136, 138, 139, 141, 142, 144, 146, 147, 149, 151, 152, 154, 156, 157, 159,
    161, 163, 164, 166, 168, 170, 171, 173, 175, 177, 179, 181, 183, 184, 186, 188,
    190, 192, 194, 196, 198, 200, 202, 204, 206, 208, 210, 212, 214, 216, 218, 220,
    222, 224, 226, 229, 231, 233, 235, 237, 239, 242, 244, 246, 248, 250, 253, 255,
];

/// The gamma table as a sequence.
pub open spec fn srgb_lut() -> Seq<u8> {
    SRGB_TO_LINEAR@
}

/// Rec.709 luminance in linear light, 0..=255: weights 0.2126, 0.7152, 0.0722 scaled by
/// 256 to 54, 183, 19.
pub open spec fn spec_luminance(rgba: Seq<u8>) -> int {
    (54 * srgb_lut()[rgba[0] as int] + 183 * srgb_lut()[rgba[1] as int] + 19 * srgb_lut()[rgba[2] as int]) / 256
}

pub open spec fn clamp_int(v: int, lo: int, hi: int) -> int {
    if v < lo {
        lo
    } else if v > hi {
        hi
    } else {
        v
    }
}

/// Grey byte of one of the 16 levels: level 0..15 → 0..255 in steps of 17.
pub open spec fn spec_grey_for_level(level: int) -> int {
    clamp_int(level * 17, 0, 255)
}

/// Bayer threshold for the absolute screen position, scaled to 0..=251.
pub open spec fn bayer_threshold(sx: int, sy: int) -> int {
    BAYER8@[sy % 8]@[sx % 8] * 255 / 64
}

/// Ordered quantisation of a linear value to a grey byte. The Bayer phase comes from the
/// absolute screen coordinates, so a pixel's output does not depend on the region.
pub open spec fn spec_quantize_ordered(lin: int, sx: int, sy: int) -> int {
    let num = lin * 15;
    let low = num / 255;
    let frac = num - low * 255;
    let level = if frac > bayer_threshold(sx, sy) {
        low + 1
    } else {
        low
    };
    spec_grey_for_level(clamp_int(level, 0, 15))
}

/// The grey byte that ordered dithering gives the source pixel at screen `(sx, sy)`.
pub open spec fn ordered_grey(src: RgbaSurface, sx: int, sy: int) -> u8 {
    spec_quantize_ordered(spec_luminance(src.spec_rgba(sx, sy)), sx, sy) as u8
}

/// Byte `k` of region pixel `(rx, ry)` in a row-major buffer `w` pixels wide with `bpp`
/// bytes per pixel.
pub open spec fn cell_index(w: int, bpp: int, rx: int, ry: int, k: int) -> int {
    (ry * w + rx) * bpp + k
}

/// `after` holds, for every pixel of `region` in row-major order, `bpp` bytes of the
/// packed grey that `grey(rx, ry)` gives it, and agrees with `before` beyond them.
pub open spec fn region_written(
    before: Seq<u8>,
    after: Seq<u8>,
    region: Rect,
    format: PanelFormat,
    grey: spec_fn(int, int) -> u8,
) -> bool {
    let bpp = spec_bytes_per_pixel(format) as int;
    let w = region.w as int;
    let h = region.h as int;
    &&& after.len() == before.len()
    &&& forall|rx: int, ry: int, k: int|
        0 <= rx < w && 0 <= ry < h && 0 <= k < bpp ==> #[trigger] after[cell_index(
            w,
            bpp,
            rx,
            ry,
            k,
        )] == spec_pack_grey(format, grey(rx, ry))[k]
    &&& forall|i: int| w * h * bpp <= i < after.len() ==> #[trigger] after[i] == before[i]
}

/// Partial progress of a region write: pixels for which `done` holds carry their packed
/// grey, every other byte is as it was.
pub open spec fn region_partly_written(
    before: Seq<u8>,
    after: Seq<u8>,
    w: int,
    h: int,
    format: PanelFormat,
    grey: spec_fn(int, int) -> u8,
    done: spec_fn(int, int) -> bool,
) -> bool {
    let bpp = spec_bytes_per_pixel(format) as int;
    &&& after.len() == before.len()
    &&& forall|rx: int, ry: int, k: int|
        0 <= rx < w && 0 <= ry < h && 0 <= k < bpp ==> #[trigger] after[cell_index(
            w,
            bpp,
            rx,
            ry,
            k,
        )] == if done(rx, ry) {
            spec_pack_grey(format, grey(rx, ry))[k]
        } else {
            before[cell_index(w, bpp, rx, ry, k)]
        }
    &&& forall|i: int| w * h * bpp <= i < after.len() ==> #[trigger] after[i] == before[i]
}

proof fn lemma_cell_index_bounds(w: int, h: int, bpp: int, rx: int, ry: int, k: int)
    requires
        0 <= rx < w,
        0 <= ry < h,
        0 <= k < bpp,
    ensures
        0 <= cell_index(w, bpp, rx, ry, k) < w * h * bpp,
        0 <= ry * w + rx < w * h,
{
    assert(0 <= ry * w + rx < w * h) by (nonlinear_arith)
        requires
            0 <= rx < w,
            0 <= ry < h,
    ;
    let q = ry * w + rx;
    assert(0 <= q * bpp + k < w * h * bpp) by (nonlinear_arith)
        requires
            0 <= q < w * h,
            0 <= k < bpp,
    ;
}

proof fn lemma_cell_index_unique(
    w: int,
    bpp: int,
    rx1: int,
    ry1: int,
    k1: int,
    rx2: int,
    ry2: int,
    k2: int,
)
    requires
        0 <= rx1 < w,
        0 <= rx2 < w,
        0 <= ry1,
        0 <= ry2,
        0 <= k1 < bpp,
        0 <= k2 < bpp,
        cell_index(w, bpp, rx1, ry1, k1) == cell_index(w, bpp, rx2, ry2, k2),
    ensures
        rx1 == rx2 && ry1 == ry2 && k1 == k2,
{
    let q1 = ry1 * w + rx1;
    let q2 = ry2 * w + rx2;
    assert(q1 == q2 && k1 == k2) by (nonlinear_arith)
        requires
            q1 * bpp + k1 == q2 * bpp + k2,
            0 <= k1 < bpp,
            0 <= k2 < bpp,
            0 <= q1,
            0 <= q2,
    ;
    assert(ry1 == ry2 && rx1 == rx2) by (nonlinear_arith)
        requires
            ry1 * w + rx1 == ry2 * w + rx2,
            0 <= rx1 < w,
            0 <= rx2 < w,
            0 <= ry1,
            0 <= ry2,
    ;
}

/// Store the packed grey of region pixel `(rx, ry)`.
fn write_cell(
    bytes: &mut Vec<u8>,
    w: u32,
    h: u32,
    format: PanelFormat,
    rx: u32,
    ry: u32,
    packed: [u8; 2],
)
    requires
        rx < w,
        ry < h,
        w * h <= u32::MAX + 1,
        w * h * spec_bytes_per_pixel(format) <= old(bytes)@.len(),
    ensures
        final(bytes)@.len() == old(bytes)@.len(),
        forall|x: int, y: int, k: int|
            0 <= x < w && 0 <= y < h && 0 <= k < spec_bytes_per_pixel(format) ==> #[trigger] final(bytes)@[cell_index(
                w as int,
                spec_bytes_per_pixel(format) as int,
                x,
                y,
                k,
            )] == if x == rx
                && y == ry {
                packed@[k]
            } else {
                old(bytes)@[cell_index(w as int, spec_bytes_per_pixel(format) as int, x, y, k)]
            },
        forall|i: int|
            w * h * spec_bytes_per_pixel(format) <= i < old(bytes)@.len() ==> #[trigger] final(bytes)@[i]
                == old(bytes)@[i],
{
    let bpp = format.bytes_per_pixel();
    proof {
        lemma_cell_index_bounds(w as int, h as int, bpp as int, rx as int, ry as int, 0);
        lemma_cell_index_bounds(w as int, h as int, bpp as int, rx as int, ry as int, bpp - 1);
    }
    let blen = bytes.len();
    let di = ((ry * w + rx) as usize) * bpp;
    let ghost before = bytes@;
    let mut k: usize = 0;
    while k < bpp
        invariant
            bpp == spec_bytes_per_pixel(format),
            di == cell_index(w as int, bpp as int, rx as int, ry as int, 0),
            di + bpp <= w * h * bpp,
            w * h * bpp <= before.len(),
            bytes@.len() == before.len(),
            k <= bpp,
            forall|j: int| 0 <= j < bytes@.len() ==> #[trigger] bytes@[j] == if di <= j < di + k {
                packed@[j - di]
            } else {
                before[j]
            },
        decreases bpp - k,
    {
        bytes.set(di + k, packed[k]);
        k += 1;
    }
    proof {
        assert forall|x: int, y: int, j: int|
            0 <= x < w && 0 <= y < h && 0 <= j < bpp implies #[trigger] bytes@[cell_index(
            w as int,
            bpp as int,
            x,
            y,
            j,
        )] == if x == rx && y == ry {
            packed@[j]
        } else {
            before[cell_index(w as int, bpp as int, x, y, j)]
        } by {
            lemma_cell_index_bounds(w as int, h as int, bpp as int, x, y, j);
            let c = cell_index(w as int, bpp as int, x, y, j);
            if di <= c < di + bpp {
                lemma_cell_index_unique(
                    w as int,
                    bpp as int,
                    x,
                    y,
                    j,
                    rx as int,
                    ry as int,
                    c - di,
                );
            }
        }
    }
}

// ------------------------------------------------------------- error diffusion model

/// Column visited at step `k` of row `ry`: rows alternate direction (serpentine scan),
/// even rows left to right, odd rows right to left.
pub open spec fn fs_col(w: int, ry: int, k: int) -> int {
    if ry % 2 == 0 {
        k
    } else {
        w - 1 - k
    }
}

/// Horizontal direction of row `ry`: +1 left to right, -1 right to left.
pub open spec fn fs_dir(ry: int) -> int {
    if ry % 2 == 0 {
        1
    } else {
        -1
    }
}

/// Column `c` of row `ry` has been visited after `k` steps of that row.
pub open spec fn fs_done(w: int, ry: int, k: int, c: int) -> bool {
    if ry % 2 == 0 {
        c < k
    } else {
        c >= w - k
    }
}

pub open spec fn clamp255(v: int) -> int {
    clamp_int(v, 0, 255)
}

/// Grey level nearest to a clamped working value: round(v · 15 / 255).
pub open spec fn fs_level(v: int) -> int {
    (clamp255(v) * 15 + 127) / 255
}

/// The grey byte error diffusion emits for working value `v`.
pub open spec fn fs_grey(v: int) -> int {
    spec_grey_for_level(fs_level(v))
}

/// Integer division by 16 rounding toward zero (Rust's `/` on signed integers).
pub open spec fn tdiv16(a: int) -> int {
    if a >= 0 {
        a / 16
    } else {
        -((-a) / 16)
    }
}

/// Linear index of cell `(c, r)` in a row-major grid `w` wide.
pub open spec fn at(w: int, c: int, r: int) -> int {
    r * w + c
}

/// Adds `num/16` of the error to the neighbour `(rx + dx·fwd, ry + dy)`, when it lies in
/// the grid.
pub open spec fn fs_spread(
    buf: Seq<int>,
    w: int,
    h: int,
    rx: int,
    ry: int,
    fwd: int,
    dx: int,
    dy: int,
    num: int,
    err: int,
) -> Seq<int> {
    let nx = rx + dx * fwd;
    let ny = ry + dy;
    if 0 <= nx < w && ny < h {
        buf.update(at(w, nx, ny), buf[at(w, nx, ny)] + tdiv16(err * num))
    } else {
        buf
    }
}

/// One error-diffusion step at step `k` of row `ry`: the visited pixel's quantisation
/// error goes 7/16 ahead in its row and 3/16, 5/16, 1/16 to the row below (behind,
/// under, ahead).
pub open spec fn fs_step(buf: Seq<int>, w: int, h: int, ry: int, k: int) -> Seq<int> {
    let rx = fs_col(w, ry, k);
    let fwd = fs_dir(ry);
    let old = clamp255(buf[at(w, rx, ry)]);
    let err = old - fs_grey(old);
    let b1 = fs_spread(buf, w, h, rx, ry, fwd, 1, 0, 7, err);
    let b2 = fs_spread(b1, w, h, rx, ry, fwd, -1, 1, 3, err);
    let b3 = fs_spread(b2, w, h, rx, ry, fwd, 0, 1, 5, err);
    fs_spread(b3, w, h, rx, ry, fwd, 1, 1, 1, err)
}

/// The working buffer before step `k` of row `ry`, starting from the luminance grid.
pub open spec fn fs_state(lum: Seq<int>, w: nat, h: int, ry: nat, k: nat) -> Seq<int>
    decreases ry, k,
{
    if k > 0 {
        fs_step(fs_state(lum, w, h, ry, (k - 1) as nat), w as int, h, ry as int, k - 1)
    } else if ry > 0 {
        fs_state(lum, w, h, (ry - 1) as nat, w)
    } else {
        lum
    }
}

/// Step of row `ry` at which column `rx` is visited.
pub open spec fn fs_step_of(w: int, ry: int, rx: int) -> int {
    if ry % 2 == 0 {
        rx
    } else {
        w - 1 - rx
    }
}

/// The grey byte error diffusion emits for grid cell `(rx, ry)`.
pub open spec fn fs_out(lum: Seq<int>, w: nat, h: int, rx: int, ry: int) -> u8 {
    fs_grey(
        fs_state(lum, w, h, ry as nat, fs_step_of(w as int, ry, rx) as nat)[at(w as int, rx, ry)],
    ) as u8
}

/// Linear luminance of the source pixel under each region pixel, row-major.
pub open spec fn lum_grid(src: RgbaSurface, region: Rect) -> Seq<int> {
    Seq::new(
        (region.w * region.h) as nat,
        |j: int|
            spec_luminance(
                src.spec_rgba(
                    origin_x(region) + j % (region.w as int),
                    origin_y(region) + j / (region.w as int),
                ),
            ),
    )
}

// ---------------------------------------------------------- error diffusion bounds

pub open spec fn done_count(w: int, ry: int, k: int, c: int) -> int {
    if 0 <= c < w && fs_done(w, ry, k, c) {
        1
    } else {
        0
    }
}

/// How many of the cells above `(c, ry+1)` (diagonal left, straight, diagonal right) have
/// been visited after `k` steps of row `ry`.
pub open spec fn above_done(w: int, ry: int, k: int, c: int) -> int {
    done_count(w, ry, k, c - 1) + done_count(w, ry, k, c) + done_count(w, ry, k, c + 1)
}

pub open spec fn abs(v: int) -> int {
    if v < 0 {
        -v
    } else {
        v
    }
}

/// Drift of the working buffer from the luminance grid before step `k` of row `ry`:
/// untouched below the next row; at most 3 per visited neighbour in the next row; at
/// most 9 in the unvisited part of the current row, 12 for the cell visited next.
pub open spec fn fs_bounded(lum: Seq<int>, s: Seq<int>, w: int, h: int, ry: int, k: int) -> bool {
    &&& s.len() == w * h
    &&& forall|c: int, r: int|
        0 <= c < w && 0 <= r < h ==> -16 <= #[trigger] s[at(w, c, r)] <= 271
    &&& forall|c: int, r: int|
        0 <= c < w && ry + 2 <= r < h ==> #[trigger] s[at(w, c, r)] == lum[at(w, c, r)]
    &&& forall|c: int|
        0 <= c < w && ry + 1 < h ==> abs(#[trigger] s[at(w, c, ry + 1)] - lum[at(w, c, ry + 1)])
            <= 3 * above_done(w, ry, k, c)
    &&& forall|c: int|
        0 <= c < w && ry < h && !fs_done(w, ry, k, c) ==> abs(
            #[trigger] s[at(w, c, ry)] - lum[at(w, c, ry)],
        )
            <= 9 + if c == fs_col(w, ry, k) {
            3int
        } else {
            0
        }
}

pub open spec fn lum_ok(lum: Seq<int>, w: int, h: int) -> bool {
    &&& lum.len() == w * h
    &&& forall|j: int| 0 <= j < lum.len() ==> 0 <= #[trigger] lum[j] <= 255
}

proof fn lemma_at_bounds(w: int, h: int, c: int, r: int)
    requires
        0 <= c < w,
        0 <= r < h,
    ensures
        0 <= at(w, c, r) < w * h,
{
    assert(0 <= r * w + c < w * h) by (nonlinear_arith)
        requires
            0 <= c < w,
            0 <= r < h,
    ;
}

proof fn lemma_at_unique(w: int, c1: int, r1: int, c2: int, r2: int)
    requires
        0 <= c1 < w,
        0 <= c2 < w,
        at(w, c1, r1) == at(w, c2, r2),
    ensures
        c1 == c2 && r1 == r2,
{
    assert(r1 == r2 && c1 == c2) by (nonlinear_arith)
        requires
            r1 * w + c1 == r2 * w + c2,
            0 <= c1 < w,
            0 <= c2 < w,
    ;
}

proof fn lemma_quant_error_small(old: int)
    requires
        0 <= old <= 255,
    ensures
        0 <= fs_level(old) <= 15,
        fs_grey(old) == 17 * fs_level(old),
        -8 <= old - fs_grey(old) <= 8,
{
    let level = (old * 15 + 127) / 255;
    assert(0 <= level <= 15 && -8 <= old - 17 * level <= 8) by (nonlinear_arith)
        requires
            0 <= old <= 255,
            level == (old * 15 + 127) / 255,
    ;
}

proof fn lemma_tdiv16_small(err: int, num: int)
    requires
        -8 <= err <= 8,
        0 <= num <= 7,
    ensures
        -3 <= tdiv16(err * num) <= 3,
{
    assert(-56 <= err * num <= 56) by (nonlinear_arith)
        requires
            -8 <= err <= 8,
            0 <= num <= 7,
    ;
}

/// One spread keeps every cell but its target, and moves the target by at most 3.
proof fn lemma_spread_effect(
    buf: Seq<int>,
    w: int,
    h: int,
    rx: int,
    ry: int,
    fwd: int,
    dx: int,
    dy: int,
    num: int,
    err: int,
)
    requires
        buf.len() == w * h,
        0 <= ry,
        0 <= dy,
        -8 <= err <= 8,
        0 <= num <= 7,
    ensures
        ({
            let out = fs_spread(buf, w, h, rx, ry, fwd, dx, dy, num, err);
            let nx = rx + dx * fwd;
            let ny = ry + dy;
            &&& out.len() == buf.len()
            &&& forall|c: int, r: int|
                0 <= c < w && 0 <= r < h && !(c == nx && r == ny) ==> #[trigger] out[at(w, c, r)]
                    == buf[at(w, c, r)]
            &&& 0 <= nx < w && ny < h ==> abs(out[at(w, nx, ny)] - buf[at(w, nx, ny)]) <= 3
        }),
{
    lemma_tdiv16_small(err, num);
    let nx = rx + dx * fwd;
    let ny = ry + dy;
    if 0 <= nx < w && ny < h {
        lemma_at_bounds(w, h, nx, ny);
        assert forall|c: int, r: int|
            0 <= c < w && 0 <= r < h && !(c == nx && r == ny) implies #[trigger] fs_spread(
            buf,
            w,
            h,
            rx,
            ry,
            fwd,
            dx,
            dy,
            num,
            err,
        )[at(w, c, r)] == buf[at(w, c, r)] by {
            lemma_at_bounds(w, h, c, r);
            if at(w, c, r) == at(w, nx, ny) {
                lemma_at_unique(w, c, r, nx, ny);
            }
        }
    }
}

proof fn lemma_fs_bounded_start(lum: Seq<int>, w: int, h: int)
    requires
        lum_ok(lum, w, h),
        w >= 0,
    ensures
        fs_bounded(lum, lum, w, h, 0, 0),
{
    assert forall|c: int, r: int| 0 <= c < w && 0 <= r < h implies -16 <= #[trigger] lum[at(
        w,
        c,
        r,
    )] <= 271 by {
        lemma_at_bounds(w, h, c, r);
    }
}

proof fn lemma_fs_bounded_next_row(lum: Seq<int>, s: Seq<int>, w: int, h: int, ry: int)
    requires
        lum_ok(lum, w, h),
        0 <= ry,
        w >= 0,
        fs_bounded(lum, s, w, h, ry, w),
    ensures
        fs_bounded(lum, s, w, h, ry + 1, 0),
{
    assert forall|c: int| 0 <= c < w && ry + 2 < h implies abs(
        #[trigger] s[at(w, c, ry + 2)] - lum[at(w, c, ry + 2)],
    ) <= 3 * above_done(w, ry + 1, 0, c) by {
        lemma_at_bounds(w, h, c, ry + 2);
        assert(s[at(w, c, ry + 2)] == lum[at(w, c, ry + 2)]);
    }
    assert forall|c: int| 0 <= c < w && ry + 1 < h && !fs_done(w, ry + 1, 0, c) implies abs(
        #[trigger] s[at(w, c, ry + 1)] - lum[at(w, c, ry + 1)],
    ) <= 9 + if c == fs_col(w, ry + 1, 0) {
        3int
    } else {
        0
    } by {
        if ry + 1 < h {
            assert(abs(s[at(w, c, ry + 1)] - lum[at(w, c, ry + 1)]) <= 3 * above_done(w, ry, w, c));
        }
    }
}

/// One error-diffusion step keeps the drift bounds, one column further on.
proof fn lemma_fs_bounded_step(lum: Seq<int>, s: Seq<int>, w: int, h: int, ry: int, k: int)
    requires
        lum_ok(lum, w, h),
        0 <= ry < h,
        0 <= k < w,
        w <= i32::MAX,
        fs_bounded(lum, s, w, h, ry, k),
    ensures
        fs_bounded(lum, fs_step(s, w, h, ry, k), w, h, ry, k + 1),
        -16 <= s[at(w, fs_col(w, ry, k), ry)] <= 271,
{
    let rx = fs_col(w, ry, k);
    let fwd = fs_dir(ry);
    lemma_at_bounds(w, h, rx, ry);
    let old = clamp255(s[at(w, rx, ry)]);
    lemma_quant_error_small(old);
    assert(fs_grey(old) == fs_grey(clamp255(old)));
    let err = old - fs_grey(old);
    let b1 = fs_spread(s, w, h, rx, ry, fwd, 1, 0, 7, err);
    let b2 = fs_spread(b1, w, h, rx, ry, fwd, -1, 1, 3, err);
    let b3 = fs_spread(b2, w, h, rx, ry, fwd, 0, 1, 5, err);
    let b4 = fs_spread(b3, w, h, rx, ry, fwd, 1, 1, 1, err);
    lemma_spread_effect(s, w, h, rx, ry, fwd, 1, 0, 7, err);
    lemma_spread_effect(b1, w, h, rx, ry, fwd, -1, 1, 3, err);
    lemma_spread_effect(b2, w, h, rx, ry, fwd, 0, 1, 5, err);
    lemma_spread_effect(b3, w, h, rx, ry, fwd, 1, 1, 1, err);
    assert(b4 == fs_step(s, w, h, ry, k));
    let t1x = rx + fwd;
    let t2x = rx - fwd;
    let t4x = rx + fwd;
    // Every cell moves by at most 3, and only the four neighbours move at all.
    assert forall|c: int, r: int| 0 <= c < w && 0 <= r < h implies {
        let moved = (c == t1x && r == ry) || (r == ry + 1 && (c == t2x || c == rx || c == t4x));
        &&& moved ==> abs(#[trigger] b4[at(w, c, r)] - s[at(w, c, r)]) <= 3
        &&& !moved ==> b4[at(w, c, r)] == s[at(w, c, r)]
    } by {
        lemma_at_bounds(w, h, c, r);
    }
    // Which columns are visited, and which is next.
    assert forall|x: int| 0 <= x < w implies (fs_done(w, ry, k + 1, x) <==> (fs_done(w, ry, k, x)
        || x == rx)) by {}
    assert(!fs_done(w, ry, k, rx));
    assert(0 <= t1x < w <==> k + 1 < w);
    assert(k + 1 < w ==> fs_col(w, ry, k + 1) == t1x);
    assert forall|c: int| 0 <= c < w implies #[trigger] above_done(w, ry, k + 1, c) == above_done(
        w,
        ry,
        k,
        c,
    ) + if c == rx - 1 || c == rx || c == rx + 1 {
        1int
    } else {
        0
    } by {}
    // Range of every cell.
    assert forall|c: int, r: int| 0 <= c < w && 0 <= r < h implies -16 <= #[trigger] b4[at(
        w,
        c,
        r,
    )] <= 271 by {
        lemma_at_bounds(w, h, c, r);
        let moved = (c == t1x && r == ry) || (r == ry + 1 && (c == t2x || c == rx || c == t4x));
        if moved {
            if r == ry {
                assert(!fs_done(w, ry, k, c));
                assert(abs(s[at(w, c, ry)] - lum[at(w, c, ry)]) <= 9);
            } else {
                assert(abs(s[at(w, c, ry + 1)] - lum[at(w, c, ry + 1)]) <= 3 * above_done(
                    w,
                    ry,
                    k,
                    c,
                ));
            }
            assert(0 <= lum[at(w, c, r)] <= 255);
        }
    }
    // Rows below the next one are untouched.
    assert forall|c: int, r: int| 0 <= c < w && ry + 2 <= r < h implies #[trigger] b4[at(
        w,
        c,
        r,
    )] == lum[at(w, c, r)] by {
        assert(b4[at(w, c, r)] == s[at(w, c, r)]);
    }
    // The next row drifts by at most 3 per visited neighbour.
    assert forall|c: int| 0 <= c < w && ry + 1 < h implies abs(
        #[trigger] b4[at(w, c, ry + 1)] - lum[at(w, c, ry + 1)],
    ) <= 3 * above_done(w, ry, k + 1, c) by {
        assert(abs(s[at(w, c, ry + 1)] - lum[at(w, c, ry + 1)]) <= 3 * above_done(w, ry, k, c));
    }
    // The unvisited part of the current row.
    assert forall|c: int| 0 <= c < w && ry < h && !fs_done(w, ry, k + 1, c) implies abs(
        #[trigger] b4[at(w, c, ry)] - lum[at(w, c, ry)],
    ) <= 9 + if c == fs_col(w, ry, k + 1) {
        3int
    } else {
        0
    } by {
        assert(abs(s[at(w, c, ry)] - lum[at(w, c, ry)]) <= 9 + if c == fs_col(w, ry, k) {
            3int
        } else {
            0
        });
    }
    assert(b4.len() == w * h);
}

pub open spec fn ints(v: Seq<i32>) -> Seq<int> {
    v.map_values(|x: i32| x as int)
}

/// Add `num/16` of `err` to the neighbour `(rx + dx·fwd, ry + dy)` when it is in the grid.
fn spread(
    buf: &mut Vec<i32>,
    w: usize,
    h: usize,
    rx: usize,
    ry: usize,
    fwd: i32,
    dx: i32,
    dy: usize,
    num: i32,
    err: i32,
)
    requires
        old(buf)@.len() == w * h,
        w * h <= usize::MAX,
        w <= i32::MAX,
        rx < w,
        ry < h,
        fwd == 1 || fwd == -1,
        -1 <= dx <= 1,
        dy <= 1,
        -8 <= err <= 8,
        0 <= num <= 7,
        ({
            let nx = rx + dx * fwd;
            let ny = ry + dy;
            0 <= nx < w && ny < h ==> -16 <= old(buf)@[at(w as int, nx, ny)] <= 271
        }),
    ensures
        ints(final(buf)@) == fs_spread(
            ints(old(buf)@),
            w as int,
            h as int,
            rx as int,
            ry as int,
            fwd as int,
            dx as int,
            dy as int,
            num as int,
            err as int,
        ),
{
    let ghost before = buf@;
    let nx = rx as i32 + dx * fwd;
    let ny = ry + dy;
    if nx >= 0 && (nx as usize) < w && ny < h {
        proof {
            lemma_at_bounds(w as int, h as int, nx as int, ny as int);
        }
        let idx = ny * w + nx as usize;
        proof {
            assert(-56 <= err * num <= 56) by (nonlinear_arith)
                requires
                    -8 <= err <= 8,
                    0 <= num <= 7,
            ;
        }
        let e = err * num;
        let d = if e >= 0 {
            e / 16
        } else {
            -((-e) / 16)
        };
        proof {
            lemma_tdiv16_small(err as int, num as int);
        }
        let v = buf[idx] + d;
        buf.set(idx, v);
        proof {
            assert(ints(buf@) =~= ints(before).update(idx as int, ints(before)[idx as int] + d));
        }
    }
}

proof fn lemma_at_div_mod(w: int, c: int, r: int)
    requires
        0 <= c < w,
        0 <= r,
    ensures
        at(w, c, r) % w == c,
        at(w, c, r) / w == r,
{
    vstd::arithmetic::div_mod::lemma_fundamental_div_mod_converse(r * w + c, w, r, c);
}

/// Which dither tier to use.
#[derive(Clone, Copy, Debug, PartialEq, Eq, Structural)]
pub enum DitherMode {
    /// Ordered Bayer — cheap, phase-stable. Default for normal updates.
    Ordered,
    /// Floyd–Steinberg error diffusion — hi-fi, full-region only.
    FloydSteinberg,
}

/// The mono pixel pipeline.
pub struct MonoPipeline {
    format: PanelFormat,
    dither: DitherMode,
    /// sRGB byte → linear-light byte.
    srgb_to_linear: [u8; 256],
}

impl MonoPipeline {
    #[verifier::type_invariant]
    spec fn table_is_gamma(self) -> bool {
        self.srgb_to_linear@ == srgb_lut()
    }

    pub closed spec fn spec_format(self) -> PanelFormat {
        self.format
    }

    pub closed spec fn spec_dither(self) -> DitherMode {
        self.dither
    }

    pub fn new(format: PanelFormat) -> (p: MonoPipeline)
        ensures
            p.spec_format() == format,
            p.spec_dither() == DitherMode::Ordered,
    {
        MonoPipeline { format, dither: DitherMode::Ordered, srgb_to_linear: SRGB_TO_LINEAR }
    }

    /// Switch dither tier (e.g. `FloydSteinberg` for a hi-fi redraw).
    pub fn with_dither(self, dither: DitherMode) -> (p: MonoPipeline)
        ensures
            p.spec_format() == self.spec_format(),
            p.spec_dither() == dither,
    {
        proof {
            use_type_invariant(&self);
        }
        MonoPipeline { format: self.format, dither, srgb_to_linear: self.srgb_to_linear }
    }

    pub fn dither(&self) -> (d: DitherMode)
        ensures
            d == self.spec_dither(),
    {
        self.dither
    }

    /// The panel format this pipeline packs for.
    pub fn format(&self) -> (f: PanelFormat)
        ensures
            f == self.spec_format(),
    {
        self.format
    }

    /// Rec.709 luminance in linear light, 0..=255.
    pub fn luminance(&self, rgba: [u8; 4]) -> (l: u8)
        ensures
            l == spec_luminance(rgba@),
    {
        proof {
            use_type_invariant(self);
        }
        let r = self.srgb_to_linear[rgba[0] as usize] as u32;
        let g = self.srgb_to_linear[rgba[1] as usize] as u32;
        let b = self.srgb_to_linear[rgba[2] as usize] as u32;
        // 0.2126, 0.7152, 0.0722 scaled by 256 → 54, 183, 19 (sum 256).
        let sum = 54 * r + 183 * g + 19 * b;
        proof {
            assert(sum >> 8 == sum / 256) by (bit_vector);
        }
        (sum >> 8) as u8
    }

    fn grey_for_level(level: i32) -> (g: u8)
        requires
            0 <= level < LEVELS,
        ensures
            g == spec_grey_for_level(level as int),
    {
        (level * 17) as u8
    }

    fn convert_ordered(&self, src: &RgbaSurface<'_>, region: Rect, dst: &mut PanelBuffer)
        requires
            convert_ok(*src, region, *old(dst), spec_bytes_per_pixel(self.format)),
        ensures
            final(dst).width == old(dst).width,
            final(dst).height == old(dst).height,
            final(dst).format == old(dst).format,
            region_written(
                old(dst).bytes@,
                final(dst).bytes@,
                region,
                self.format,
                |rx: int, ry: int| ordered_grey(*src, origin_x(region) + rx, origin_y(region) + ry),
            ),
    {
        let ghost before = dst.bytes@;
        let ghost g = |rx: int, ry: int|
            ordered_grey(*src, origin_x(region) + rx, origin_y(region) + ry);
        let ghost fmt = self.format;
        let w = region.w;
        let h = region.h;
        for ry in 0..h
            invariant
                w == region.w,
                h == region.h,
                fmt == self.format,
                dst.width == old(dst).width,
                dst.height == old(dst).height,
                dst.format == old(dst).format,
                before == old(dst).bytes@,
                forall|x: int, y: int|
                    #[trigger] g(x, y) == ordered_grey(
                        *src,
                        origin_x(region) + x,
                        origin_y(region) + y,
                    ),
                convert_ok(*src, region, *old(dst), spec_bytes_per_pixel(fmt)),
                region_partly_written(
                    before,
                    dst.bytes@,
                    w as int,
                    h as int,
                    fmt,
                    g,
                    |x: int, y: int| y < ry,
                ),
        {
            for rx in 0..w
                invariant
                    w == region.w,
                    h == region.h,
                    ry < h,
                    fmt == self.format,
                    dst.width == old(dst).width,
                    dst.height == old(dst).height,
                    dst.format == old(dst).format,
                    before == old(dst).bytes@,
                    forall|x: int, y: int|
                        #[trigger] g(x, y) == ordered_grey(
                            *src,
                            origin_x(region) + x,
                            origin_y(region) + y,
                        ),
                    convert_ok(*src, region, *old(dst), spec_bytes_per_pixel(fmt)),
                    region_partly_written(
                        before,
                        dst.bytes@,
                        w as int,
                        h as int,
                        fmt,
                        g,
                        |x: int, y: int| y < ry || (y == ry && x < rx),
                    ),
            {
                let sx = region.x as u32 + rx;
                let sy = region.y as u32 + ry;
                assert(source_readable(*src, region, rx as int, ry as int));
                let lin = self.luminance(src.rgba(sx, sy));
                let grey = self.quantize_ordered(lin, sx, sy);
                assert(g(rx as int, ry as int) == ordered_grey(*src, sx as int, sy as int));
                assert(0 <= spec_quantize_ordered(lin as int, sx as int, sy as int) <= 255);
                assert(grey == g(rx as int, ry as int));
                let packed = self.format.pack_grey(grey);
                write_cell(&mut dst.bytes, w, h, self.format, rx, ry, packed);
            }
        }
    }

    fn convert_floyd(&self, src: &RgbaSurface<'_>, region: Rect, dst: &mut PanelBuffer)
        requires
            convert_ok(*src, region, *old(dst), spec_bytes_per_pixel(self.format)),
            region.w <= i32::MAX,
        ensures
            final(dst).width == old(dst).width,
            final(dst).height == old(dst).height,
            final(dst).format == old(dst).format,
            region_written(
                old(dst).bytes@,
                final(dst).bytes@,
                region,
                self.format,
                |rx: int, ry: int|
                    fs_out(lum_grid(*src, region), region.w as nat, region.h as int, rx, ry),
            ),
    {
        let ghost before = dst.bytes@;
        let ghost fmt = self.format;
        let ghost lum = lum_grid(*src, region);
        let ghost wn = region.w as nat;
        let ghost hi = region.h as int;
        let ghost g = |rx: int, ry: int| fs_out(lum, wn, hi, rx, ry);
        let bpp = self.format.bytes_per_pixel();
        proof {
            let wi = region.w as int;
            assert(wi * hi <= wi * hi * bpp) by (nonlinear_arith)
                requires
                    bpp >= 1,
                    wi >= 0,
                    hi >= 0,
            ;
        }
        let blen = dst.bytes.len();
        let w = region.w as usize;
        let h = region.h as usize;
        // High-precision (i32) working buffer of linear luminance to avoid banding.
        let mut buf: Vec<i32> = Vec::new();
        proof {
            assert(0 * w == 0) by (nonlinear_arith);
        }
        for ry in 0..h
            invariant
                w == region.w,
                h == region.h,
                w * h <= blen,
                lum == lum_grid(*src, region),
                convert_ok(*src, region, *old(dst), spec_bytes_per_pixel(fmt)),
                buf@.len() == ry * w,
                forall|j: int| 0 <= j < buf@.len() ==> #[trigger] ints(buf@)[j] == lum[j],
        {
            for rx in 0..w
                invariant
                    w == region.w,
                    h == region.h,
                    ry < h,
                    w * h <= blen,
                    lum == lum_grid(*src, region),
                    convert_ok(*src, region, *old(dst), spec_bytes_per_pixel(fmt)),
                    buf@.len() == ry * w + rx,
                    forall|j: int| 0 <= j < buf@.len() ==> #[trigger] ints(buf@)[j] == lum[j],
            {
                proof {
                    lemma_at_bounds(w as int, h as int, rx as int, ry as int);
                    lemma_at_div_mod(w as int, rx as int, ry as int);
                }
                assert(source_readable(*src, region, rx as int, ry as int));
                let lin = self.luminance(src.rgba(region.x as u32 + rx as u32, region.y as u32 + ry as u32));
                let ghost old_buf = buf@;
                buf.push(lin as i32);
                proof {
                    assert forall|j: int| 0 <= j < buf@.len() implies #[trigger] ints(buf@)[j]
                        == lum[j] by {
                        if j < old_buf.len() {
                            assert(ints(old_buf)[j] == lum[j]);
                        }
                    }
                }
            }
            proof {
                assert(ry * w + w == (ry + 1) * w) by (nonlinear_arith);
            }
        }
        proof {
            assert(h * w == w * h) by (nonlinear_arith);
        }
        assert(ints(buf@) =~= lum);
        proof {
            lemma_fs_bounded_start(lum, w as int, h as int);
            assert forall|j: int| 0 <= j < lum.len() implies 0 <= #[trigger] lum[j] <= 255 by {}
        }
        for ry in 0..h
            invariant
                w == region.w,
                h == region.h,
                w <= i32::MAX,
                w * h <= blen,
                blen == before.len(),
                bpp == spec_bytes_per_pixel(fmt),
                fmt == self.format,
                wn == w,
                hi == h,
                dst.width == old(dst).width,
                dst.height == old(dst).height,
                dst.format == old(dst).format,
                before == old(dst).bytes@,
                convert_ok(*src, region, *old(dst), spec_bytes_per_pixel(fmt)),
                lum_ok(lum, w as int, h as int),
                forall|x: int, y: int| #[trigger] g(x, y) == fs_out(lum, wn, hi, x, y),
                ints(buf@) == fs_state(lum, wn, hi, ry as nat, 0),
                fs_bounded(lum, ints(buf@), w as int, h as int, ry as int, 0),
                region_partly_written(
                    before,
                    dst.bytes@,
                    w as int,
                    h as int,
                    fmt,
                    g,
                    |x: int, y: int| y < ry,
                ),
        {
            // Serpentine scan reduces directional artefacts.
            let l2r = ry % 2 == 0;
            let fwd: i32 = if l2r {
                1
            } else {
                -1
            };
            for k in 0..w
                invariant
                    w == region.w,
                    h == region.h,
                    ry < h,
                    l2r == (ry % 2 == 0),
                    fwd == fs_dir(ry as int),
                    w <= i32::MAX,
                    w * h <= blen,
                    blen == before.len(),
                    bpp == spec_bytes_per_pixel(fmt),
                    fmt == self.format,
                    wn == w,
                    hi == h,
                    dst.width == old(dst).width,
                    dst.height == old(dst).height,
                    dst.format == old(dst).format,
                    before == old(dst).bytes@,
                    convert_ok(*src, region, *old(dst), spec_bytes_per_pixel(fmt)),
                    lum_ok(lum, w as int, h as int),
                    forall|x: int, y: int| #[trigger] g(x, y) == fs_out(lum, wn, hi, x, y),
                    ints(buf@) == fs_state(lum, wn, hi, ry as nat, k as nat),
                    fs_bounded(lum, ints(buf@), w as int, h as int, ry as int, k as int),
                    region_partly_written(
                        before,
                        dst.bytes@,
                        w as int,
                        h as int,
                        fmt,
                        g,
                        |x: int, y: int| y < ry || (y == ry && fs_done(w as int, ry as int, k as int, x)),
                    ),
            {
                let rx = if l2r {
                    k
                } else {
                    w - 1 - k
                };
                let ghost st = ints(buf@);
                proof {
                    lemma_at_bounds(w as int, h as int, rx as int, ry as int);
                    lemma_fs_bounded_step(lum, st, w as int, h as int, ry as int, k as int);
                }
                let v = buf[ry * w + rx];
                let old = if v < 0 {
                    0
                } else if v > 255 {
                    255
                } else {
                    v
                };
                let level = (old * (LEVELS - 1) + 127) / 255;
                proof {
                    lemma_quant_error_small(old as int);
                    assert(fs_level(v as int) == level);
                }
                let grey = Self::grey_for_level(level);
                let err = old - grey as i32;
                let ghost rxi = rx as int;
                let ghost ryi = ry as int;
                let ghost wi = w as int;
                let ghost hh = h as int;
                let ghost b1 = fs_spread(st, wi, hh, rxi, ryi, fwd as int, 1, 0, 7, err as int);
                let ghost b2 = fs_spread(b1, wi, hh, rxi, ryi, fwd as int, -1, 1, 3, err as int);
                let ghost b3 = fs_spread(b2, wi, hh, rxi, ryi, fwd as int, 0, 1, 5, err as int);
                proof {
                    assert(fs_grey(old as int) == grey);
                    lemma_spread_effect(st, wi, hh, rxi, ryi, fwd as int, 1, 0, 7, err as int);
                    lemma_spread_effect(b1, wi, hh, rxi, ryi, fwd as int, -1, 1, 3, err as int);
                    lemma_spread_effect(b2, wi, hh, rxi, ryi, fwd as int, 0, 1, 5, err as int);
                    if 0 <= rxi + fwd < wi {
                        lemma_at_bounds(wi, hh, rxi + fwd, ryi);
                    }
                    if ryi + 1 < hh {
                        if 0 <= rxi - fwd < wi {
                            lemma_at_bounds(wi, hh, rxi - fwd, ryi + 1);
                        }
                        lemma_at_bounds(wi, hh, rxi, ryi + 1);
                        if 0 <= rxi + fwd < wi {
                            lemma_at_bounds(wi, hh, rxi + fwd, ryi + 1);
                        }
                    }
                }
                // Distribute error to neighbours (7/16, 3/16, 5/16, 1/16).
                spread(&mut buf, w, h, rx, ry, fwd, 1, 0, 7, err);
                spread(&mut buf, w, h, rx, ry, fwd, -1, 1, 3, err);
                spread(&mut buf, w, h, rx, ry, fwd, 0, 1, 5, err);
                spread(&mut buf, w, h, rx, ry, fwd, 1, 1, 1, err);
                proof {
                    assert(ints(buf@) == fs_step(st, wi, hh, ryi, k as int));
                    assert(fs_col(wi, ryi, k as int) == rxi);
                }
                let packed = self.format.pack_grey(grey);
                proof {
                    assert(fs_step_of(wi, ryi, rxi) == k);
                    assert(g(rxi, ryi) == grey);
                }
                write_cell(&mut dst.bytes, region.w, region.h, self.format, rx as u32, ry as u32, packed);
                proof {
                    assert forall|x: int| 0 <= x < wi implies (fs_done(wi, ryi, k + 1, x) <==> (fs_done(
                        wi,
                        ryi,
                        k as int,
                        x,
                    ) || x == rxi)) by {}
                }
            }
            proof {
                lemma_fs_bounded_next_row(lum, ints(buf@), w as int, h as int, ry as int);
                assert forall|x: int| 0 <= x < w implies fs_done(w as int, ry as int, w as int, x) by {}
            }
        }
    }

    /// Ordered quantisation of a linear value to a grey byte, using absolute screen coords
    /// for the Bayer phase (stable across partial redraws).
    fn quantize_ordered(&self, lin: u8, sx: u32, sy: u32) -> (g: u8)
        ensures
            g == spec_quantize_ordered(lin as int, sx as int, sy as int),
    {
        let num = lin as i32 * (LEVELS - 1);
        let low = num / 255;
        let frac = num - low * 255;
        let row = (sy & 7) as usize;
        let col = (sx & 7) as usize;
        proof {
            assert(sy & 7 == sy % 8) by (bit_vector);
            assert(sx & 7 == sx % 8) by (bit_vector);
        }
        let thr = BAYER8[row][col] as i32 * 255 / 64;
        let level = if frac > thr {
            low + 1
        } else {
            low
        };
        let clamped = if level < 0 {
            0
        } else if level > LEVELS - 1 {
            LEVELS - 1
        } else {
            level
        };
        Self::grey_for_level(clamped)
    }
}

/// What `convert` asks of a mono pipeline: it writes `bytes_per_pixel` of its format per
/// pixel, and takes any region in ordered mode and regions at most `i32::MAX` pixels wide
/// in error-diffusion mode.
pub proof fn lemma_mono_limits(p: MonoPipeline, r: Rect)
    ensures
        p.output_bpp() == spec_bytes_per_pixel(p.spec_format()),
        p.region_supported(r) <==> (p.spec_dither() == DitherMode::FloydSteinberg ==> r.w
            <= i32::MAX),
{
}

impl PixelPipeline for MonoPipeline {
    closed spec fn output_bpp(&self) -> nat {
        spec_bytes_per_pixel(self.format)
    }

    /// Error diffusion walks rows with signed column arithmetic, so its regions are at most
    /// `i32::MAX` pixels wide.
    closed spec fn region_supported(&self, region: Rect) -> bool {
        self.dither == DitherMode::FloydSteinberg ==> region.w <= i32::MAX
    }

    fn panel(&self) -> (k: PanelKind)
        ensures
            k == PanelKind::Mono,
    {
        PanelKind::Mono
    }

    fn convert(&mut self, src: &RgbaSurface<'_>, region: Rect, dst: &mut PanelBuffer) -> (written:
        Rect)
        ensures
            *final(self) == *old(self),
            old(self).spec_dither() == DitherMode::Ordered ==> region_written(
                old(dst).bytes@,
                final(dst).bytes@,
                region,
                old(self).spec_format(),
                |rx: int, ry: int| ordered_grey(*src, origin_x(region) + rx, origin_y(region) + ry),
            ),
            old(self).spec_dither() == DitherMode::FloydSteinberg ==> region_written(
                old(dst).bytes@,
                final(dst).bytes@,
                region,
                old(self).spec_format(),
                |rx: int, ry: int|
                    fs_out(lum_grid(*src, region), region.w as nat, region.h as int, rx, ry),
            ),
    {
        match self.dither {
            DitherMode::Ordered => self.convert_ordered(src, region, dst),
            DitherMode::FloydSteinberg => self.convert_floyd(src, region, dst),
        }
        // Region actually written, clamped to the source bounds.
        let x0 = region.x as u32;
        let y0 = region.y as u32;
        let xe = x0 + region.w;
        let ye = y0 + region.h;
        let x1 = if xe <= src.width {
            xe
        } else {
            src.width
        };
        let y1 = if ye <= src.height {
            ye
        } else {
            src.height
        };
        Rect::new(region.x, region.y, x1.saturating_sub(x0), y1.saturating_sub(y0))
    }
}

/// Neutral greys keep their linearised value: the luminance weights sum to 256, so a pixel
/// whose three channels are equal has the gamma table's value for that channel.
pub proof fn lemma_neutral_luminance(v: u8, a: u8)
    ensures
        spec_luminance(seq![v, v, v, a]) == srgb_lut()[v as int],
{
    let l = srgb_lut()[v as int] as int;
    assert(seq![v, v, v, a][0] == v && seq![v, v, v, a][1] == v && seq![v, v, v, a][2] == v);
    assert(54 * l + 183 * l + 19 * l == 256 * l) by (nonlinear_arith);
    assert((256 * l) / 256 == l) by (nonlinear_arith);
}

/// Ordered dithering lands on one of the panel's 16 grey levels, and leaves black and
/// white unchanged at every screen position.
pub proof fn lemma_ordered_levels(lin: int, sx: int, sy: int)
    requires
        0 <= lin <= 255,
        0 <= sx,
        0 <= sy,
    ensures
        spec_quantize_ordered(lin, sx, sy) % 17 == 0,
        0 <= spec_quantize_ordered(lin, sx, sy) <= 255,
        spec_quantize_ordered(0, sx, sy) == 0,
        spec_quantize_ordered(255, sx, sy) == 255,
{
    let t = bayer_threshold(sx, sy);
    let num = lin * 15;
    let low = num / 255;
    assert(0 <= low <= 15);
    let level = if num - low * 255 > t {
        low + 1
    } else {
        low
    };
    let c = clamp_int(level, 0, 15);
    assert(0 <= c <= 15);
    assert(c * 17 <= 255);
    assert((c * 17) % 17 == 0);
    assert(BAYER8@[sy % 8]@[sx % 8] <= 63) by {
        lemma_bayer_bounds();
    }
    assert(t >= 0);
}

/// Every entry of the Bayer matrix is below 64.
proof fn lemma_bayer_bounds()
    ensures
        forall|r: int, c: int| 0 <= r < 8 && 0 <= c < 8 ==> 0 <= #[trigger] BAYER8@[r]@[c] <= 63,
{
}

/// Ordered dithering is phase-stable across partial redraws: two conversions of regions
/// that share a screen pixel write the same bytes for it, whatever the regions are.
pub proof fn lemma_ordered_phase_stable(
    src: RgbaSurface,
    format: PanelFormat,
    r1: Rect,
    before1: Seq<u8>,
    after1: Seq<u8>,
    r2: Rect,
    before2: Seq<u8>,
    after2: Seq<u8>,
    sx: int,
    sy: int,
    k: int,
)
    requires
        region_written(
            before1,
            after1,
            r1,
            format,
            |rx: int, ry: int| ordered_grey(src, origin_x(r1) + rx, origin_y(r1) + ry),
        ),
        region_written(
            before2,
            after2,
            r2,
            format,
            |rx: int, ry: int| ordered_grey(src, origin_x(r2) + rx, origin_y(r2) + ry),
        ),
        origin_x(r1) <= sx < origin_x(r1) + r1.w,
        origin_y(r1) <= sy < origin_y(r1) + r1.h,
        origin_x(r2) <= sx < origin_x(r2) + r2.w,
        origin_y(r2) <= sy < origin_y(r2) + r2.h,
        0 <= k < spec_bytes_per_pixel(format),
    ensures
        after1[cell_index(
            r1.w as int,
            spec_bytes_per_pixel(format) as int,
            sx - origin_x(r1),
            sy - origin_y(r1),
            k,
        )] == after2[cell_index(
            r2.w as int,
            spec_bytes_per_pixel(format) as int,
            sx - origin_x(r2),
            sy - origin_y(r2),
            k,
        )],
        after1[cell_index(
            r1.w as int,
            spec_bytes_per_pixel(format) as int,
            sx - origin_x(r1),
            sy - origin_y(r1),
            k,
        )] == spec_pack_grey(format, ordered_grey(src, sx, sy))[k],
{
    let bpp = spec_bytes_per_pixel(format) as int;
    assert(after1[cell_index(r1.w as int, bpp, sx - origin_x(r1), sy - origin_y(r1), k)]
        == spec_pack_grey(format, ordered_grey(src, origin_x(r1) + (sx - origin_x(r1)), origin_y(r1) + (sy - origin_y(r1))))[k]);
    assert(after2[cell_index(r2.w as int, bpp, sx - origin_x(r2), sy - origin_y(r2), k)]
        == spec_pack_grey(format, ordered_grey(src, origin_x(r2) + (sx - origin_x(r2)), origin_y(r2) + (sy - origin_y(r2))))[k]);
}

/// The gamma table never decreases from one entry to the next.
proof fn lemma_lut_steps_up()
    ensures
        forall|i: int| 0 <= i < 255 ==> #[trigger] srgb_lut()[i] <= srgb_lut()[i + 1],
{
}

/// The gamma table is non-decreasing.
proof fn lemma_lut_monotone(i: int, j: int)
    requires
        0 <= i <= j < 256,
    ensures
        srgb_lut()[i] <= srgb_lut()[j],
    decreases j - i,
{
    if i < j {
        lemma_lut_steps_up();
        lemma_lut_monotone(i, j - 1);
        assert(srgb_lut()[j - 1] <= srgb_lut()[j]);
    }
}

/// Luminance ignores alpha, stays within a byte, and never decreases when any of the red,
/// green or blue channels increases.
pub proof fn lemma_luminance_monotone(a: Seq<u8>, b: Seq<u8>)
    requires
        a.len() == 4,
        b.len() == 4,
        a[0] <= b[0],
        a[1] <= b[1],
        a[2] <= b[2],
    ensures
        spec_luminance(a) <= spec_luminance(b),
        spec_luminance(a) == spec_luminance(seq![a[0], a[1], a[2], b[3]]),
        0 <= spec_luminance(a) <= 255,
{
    lemma_lut_monotone(a[0] as int, b[0] as int);
    lemma_lut_monotone(a[1] as int, b[1] as int);
    lemma_lut_monotone(a[2] as int, b[2] as int);
    let x = 54 * srgb_lut()[a[0] as int] + 183 * srgb_lut()[a[1] as int] + 19 * srgb_lut()[a[2] as int];
    let y = 54 * srgb_lut()[b[0] as int] + 183 * srgb_lut()[b[1] as int] + 19 * srgb_lut()[b[2] as int];
    assert(0 <= x <= y);
    assert(x <= 256 * 255);
    assert(x / 256 <= y / 256) by (nonlinear_arith)
        requires
            0 <= x <= y,
    ;
    assert(x / 256 <= 255) by (nonlinear_arith)
        requires
            0 <= x <= 256 * 255,
    ;
    let c = seq![a[0], a[1], a[2], b[3]];
    assert(c[0] == a[0] && c[1] == a[1] && c[2] == a[2]);
}

/// The Bayer phase repeats every 8 pixels in each direction, and ordered dithering rounds
/// a value either down to its lower grey level or up to the next one.
pub proof fn lemma_ordered_period_and_rounding(lin: int, sx: int, sy: int)
    requires
        0 <= lin <= 255,
        0 <= sx,
        0 <= sy,
    ensures
        spec_quantize_ordered(lin, sx + 8, sy) == spec_quantize_ordered(lin, sx, sy),
        spec_quantize_ordered(lin, sx, sy + 8) == spec_quantize_ordered(lin, sx, sy),
        ({
            let low = (lin * 15) / 255;
            spec_quantize_ordered(lin, sx, sy) == 17 * low || spec_quantize_ordered(lin, sx, sy)
                == 17 * min_level(low + 1)
        }),
{
    assert((sx + 8) % 8 == sx % 8);
    assert((sy + 8) % 8 == sy % 8);
    let low = (lin * 15) / 255;
    assert(0 <= low <= 15);
}

/// A grey level capped at the top one.
pub open spec fn min_level(l: int) -> int {
    if l <= 15 {
        l
    } else {
        15
    }
}

/// Each channel carries its own Rec.709 weight: a pure red, green or blue pixel of
/// channel value `v` has luminance 54, 183 or 19 times the linearised `v`, over 256, so
/// for the same value green weighs most and blue least; black is 0 and the weights sum to
/// the full scale, so white is 255.
pub proof fn lemma_luminance_channel_weights(v: u8, a: u8)
    ensures
        spec_luminance(seq![v, 0u8, 0u8, a]) == (54 * srgb_lut()[v as int]) / 256,
        spec_luminance(seq![0u8, v, 0u8, a]) == (183 * srgb_lut()[v as int]) / 256,
        spec_luminance(seq![0u8, 0u8, v, a]) == (19 * srgb_lut()[v as int]) / 256,
        spec_luminance(seq![0u8, 0u8, v, a]) <= spec_luminance(seq![v, 0u8, 0u8, a])
            <= spec_luminance(seq![0u8, v, 0u8, a]),
        spec_luminance(seq![0u8, 0u8, 0u8, a]) == 0,
        spec_luminance(seq![255u8, 255u8, 255u8, a]) == 255,
{
    let l = srgb_lut()[v as int] as int;
    assert(srgb_lut()[0] == 0);
    assert(srgb_lut()[255] == 255);
    assert(seq![v, 0u8, 0u8, a][0] == v && seq![v, 0u8, 0u8, a][1] == 0 && seq![v, 0u8, 0u8, a][2] == 0);
    assert(seq![0u8, v, 0u8, a][0] == 0 && seq![0u8, v, 0u8, a][1] == v && seq![0u8, v, 0u8, a][2] == 0);
    assert(seq![0u8, 0u8, v, a][0] == 0 && seq![0u8, 0u8, v, a][1] == 0 && seq![0u8, 0u8, v, a][2] == v);
    assert(seq![0u8, 0u8, 0u8, a][0] == 0 && seq![0u8, 0u8, 0u8, a][1] == 0 && seq![0u8, 0u8, 0u8, a][2] == 0);
    assert(seq![255u8, 255u8, 255u8, a][0] == 255 && seq![255u8, 255u8, 255u8, a][1] == 255 && seq![255u8, 255u8, 255u8, a][2] == 255);
    assert(0 <= l);
    assert((19 * l) / 256 <= (54 * l) / 256 <= (183 * l) / 256) by (nonlinear_arith)
        requires
            0 <= l,
    ;
}

/// The Bayer matrix holds each threshold rank 0..=63 exactly once, so every phase of an
/// 8×8 tile gets its own threshold.
pub proof fn lemma_bayer_is_permutation()
    ensures
        forall|r: int, c: int| 0 <= r < 8 && 0 <= c < 8 ==> 0 <= #[trigger] BAYER8@[r]@[c] <= 63,
        forall|r1: int, c1: int, r2: int, c2: int|
            0 <= r1 < 8 && 0 <= c1 < 8 && 0 <= r2 < 8 && 0 <= c2 < 8 && (r1 != r2 || c1 != c2)
                ==> #[trigger] BAYER8@[r1]@[c1] != #[trigger] BAYER8@[r2]@[c2],
{
}

} // verus!
