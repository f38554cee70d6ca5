//! Pixel pipeline: the seam between the engine's RGBA output and the panel.
//!
//! Mono and colour are separate renderers, sharing only the [`PixelPipeline`] trait and
//! the surface/format helpers. The greyscale renderer lives in [`mono`].

use vstd::prelude::*;
use crate::types::{PanelFormat, PanelKind, Rect, spec_bytes_per_pixel};

pub mod mono;

verus! {

/// A borrowed RGBA8 source surface produced by the render engine.
pub struct RgbaSurface<'a> {
    pub width: u32,
    pub height: u32,
    /// Row-major RGBA8, length == width*height*4.
    pub pixels: &'a [u8],
}

/// Opaque black, returned for reads outside the surface.
pub open spec fn black_rgba() -> Seq<u8> {
    seq![0u8, 0u8, 0u8, 255u8]
}

impl<'a> RgbaSurface<'a> {
    /// Reading pixel `(x, y)` stays within the pixel bytes and the `u32` index range
    /// (always true outside the surface, where nothing is read).
    pub open spec fn pixel_readable(&self, x: int, y: int) -> bool {
        x >= self.width || y >= self.height || {
            &&& (y * self.width + x) * 4 <= u32::MAX
            &&& (y * self.width + x) * 4 + 4 <= self.pixels@.len()
        }
    }

    /// Every pixel of the surface is readable: the bytes cover `width*height` pixels and
    /// their byte offsets fit the `u32` index range.
    pub open spec fn well_formed(&self) -> bool {
        &&& 4 * self.width * self.height <= self.pixels@.len()
        &&& 4 * self.width * self.height <= u32::MAX + 1
    }

    /// The RGBA bytes of pixel `(x, y)`, or opaque black outside the surface.
    pub open spec fn spec_rgba(&self, x: int, y: int) -> Seq<u8> {
        if x >= self.width || y >= self.height {
            black_rgba()
        } else {
            let i = (y * self.width + x) * 4;
            seq![self.pixels@[i], self.pixels@[i + 1], self.pixels@[i + 2], self.pixels@[i + 3]]
        }
    }

    /// Read the RGBA bytes of pixel (x,y); returns black if out of bounds.
    pub fn rgba(&self, x: u32, y: u32) -> (p: [u8; 4])
        requires
            self.pixel_readable(x as int, y as int),
        ensures
            p@ == self.spec_rgba(x as int, y as int),
    {
        if x >= self.width || y >= self.height {
            return [0, 0, 0, 255];
        }
        proof {
            let w = self.width as int;
            assert(0 <= y * w <= (y * w + x) * 4) by (nonlinear_arith)
                requires
                    0 <= y,
                    0 <= w,
                    0 <= x,
            ;
        }
        let i = ((y * self.width + x) * 4) as usize;
        let p = [self.pixels[i], self.pixels[i + 1], self.pixels[i + 2], self.pixels[i + 3]];
        assert(p@ =~= self.spec_rgba(x as int, y as int));
        p
    }
}

pub proof fn lemma_well_formed_readable(s: RgbaSurface, x: int, y: int)
    requires
        s.well_formed(),
        0 <= x,
        0 <= y,
    ensures
        s.pixel_readable(x, y),
{
    let w = s.width as int;
    let h = s.height as int;
    if x < w && y < h {
        assert((y * w + x) * 4 + 4 <= 4 * w * h) by (nonlinear_arith)
            requires
                0 <= x < w,
                0 <= y < h,
        ;
    }
}

/// A panel-ready output buffer for a single dirty region (not the whole screen).
///
/// `width`/`height` are the region's size; `bytes` is row-major in `format`.
pub struct PanelBuffer {
    pub width: u32,
    pub height: u32,
    pub format: PanelFormat,
    pub bytes: Vec<u8>,
}

impl PanelBuffer {
    /// Allocate a zeroed region buffer of the given size and format.
    pub fn new(width: u32, height: u32, format: PanelFormat) -> (b: PanelBuffer)
        requires
            width * height * spec_bytes_per_pixel(format) <= usize::MAX,
        ensures
            b.width == width,
            b.height == height,
            b.format == format,
            b.bytes@.len() == width * height * spec_bytes_per_pixel(format),
            forall|i: int| 0 <= i < b.bytes@.len() ==> b.bytes@[i] == 0,
    {
        let bpp = format.bytes_per_pixel();
        proof {
            let w = width as int;
            let h = height as int;
            assert(w * h <= w * h * bpp) by (nonlinear_arith)
                requires
                    bpp >= 1,
                    w >= 0,
                    h >= 0,
            ;
        }
        let len = width as usize * height as usize * bpp;
        let mut bytes: Vec<u8> = Vec::new();
        while bytes.len() < len
            invariant
                bytes@.len() <= len,
                forall|i: int| 0 <= i < bytes@.len() ==> bytes@[i] == 0,
            decreases len - bytes@.len(),
        {
            bytes.push(0);
        }
        PanelBuffer { width, height, format, bytes }
    }
}

/// Column of the surface where a region starts (the signed origin reinterpreted as an
/// unsigned coordinate, as the conversion reads it).
pub open spec fn origin_x(region: Rect) -> int {
    (region.x as u32) as int
}

pub open spec fn origin_y(region: Rect) -> int {
    (region.y as u32) as int
}

/// A region conversion stays in range: the destination is sized to the region and holds
/// `bpp` bytes for each of its pixels, pixel offsets within the region fit a `u32`, the
/// region's source coordinates fit a `u32`, and every source pixel it covers is readable.
pub open spec fn convert_ok(src: RgbaSurface, region: Rect, dst: PanelBuffer, bpp: nat) -> bool {
    &&& dst.width == region.w
    &&& dst.height == region.h
    &&& region.w * region.h * bpp <= dst.bytes@.len()
    &&& region.w * region.h <= u32::MAX + 1
    &&& origin_x(region) + region.w <= u32::MAX
    &&& origin_y(region) + region.h <= u32::MAX
    &&& forall|rx: int, ry: int|
        0 <= rx < region.w && 0 <= ry < region.h ==> #[trigger] source_readable(src, region, rx, ry)
}

/// The source pixel under region pixel `(rx, ry)` is readable.
pub open spec fn source_readable(src: RgbaSurface, region: Rect, rx: int, ry: int) -> bool {
    src.pixel_readable(origin_x(region) + rx, origin_y(region) + ry)
}

pub open spec fn sat_sub(a: int, b: int) -> int {
    if a >= b {
        a - b
    } else {
        0
    }
}

pub open spec fn min_of(a: int, b: int) -> int {
    if a <= b {
        a
    } else {
        b
    }
}

/// The part of `region` that lies on the source surface: same origin, extent clamped to
/// the surface's right and bottom edges.
pub open spec fn spec_written(src: RgbaSurface, region: Rect) -> Rect {
    let x1 = min_of(origin_x(region) + region.w, src.width as int);
    let y1 = min_of(origin_y(region) + region.h, src.height as int);
    Rect {
        x: region.x,
        y: region.y,
        w: sat_sub(x1, origin_x(region)) as u32,
        h: sat_sub(y1, origin_y(region)) as u32,
    }
}

/// Converts engine RGBA into panel-ready bytes for a dirty region.
pub trait PixelPipeline {
    /// Bytes this pipeline writes per output pixel.
    spec fn output_bpp(&self) -> nat;

    /// Regions this pipeline can convert (beyond the general range conditions).
    spec fn region_supported(&self, region: Rect) -> bool;

    /// Which panel family this pipeline targets.
    fn panel(&self) -> PanelKind;

    /// Convert the `region` of `src` into `dst` (sized to `region`), returning the region
    /// actually written (clamped to the source bounds).
    fn convert(&mut self, src: &RgbaSurface<'_>, region: Rect, dst: &mut PanelBuffer) -> (written:
        Rect)
        requires
            convert_ok(*src, region, *old(dst), old(self).output_bpp()),
            old(self).region_supported(region),
        ensures
            written == spec_written(*src, region),
            final(dst).width == old(dst).width,
            final(dst).height == old(dst).height,
            final(dst).format == old(dst).format,
            final(dst).bytes@.len() == old(dst).bytes@.len(),
    ;
}

} // verus!
