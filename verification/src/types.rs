//! Shared geometry and device types.

use vstd::prelude::*;

verus! {

/// An integer pixel point in some coordinate space (physical glass or logical viewport).
#[derive(Clone, Copy, Debug, PartialEq, Eq, Structural)]
pub struct Point {
    pub x: i32,
    pub y: i32,
}

impl Point {
    pub fn new(x: i32, y: i32) -> (p: Point)
        ensures
            p.x == x,
            p.y == y,
    {
        Point { x, y }
    }
}

/// An axis-aligned rectangle in pixels.
#[derive(Clone, Copy, Debug, PartialEq, Eq, Structural)]
pub struct Rect {
    pub x: i32,
    pub y: i32,
    pub w: u32,
    pub h: u32,
}

/// The empty rectangle at the origin.
pub open spec fn spec_empty_rect() -> Rect {
    Rect { x: 0, y: 0, w: 0, h: 0 }
}

/// Exclusive right edge of a rectangle, as a mathematical integer.
pub open spec fn right(r: Rect) -> int {
    r.x + r.w
}

/// Exclusive bottom edge of a rectangle, as a mathematical integer.
pub open spec fn bottom(r: Rect) -> int {
    r.y + r.h
}

pub open spec fn spec_is_empty(r: Rect) -> bool {
    r.w == 0 || r.h == 0
}

pub open spec fn min_int(a: int, b: int) -> int {
    if a <= b { a } else { b }
}

pub open spec fn max_int(a: int, b: int) -> int {
    if a >= b { a } else { b }
}

/// A width or height read as a signed coordinate (`as i32`): sizes above `i32::MAX` wrap
/// around to negative values.
pub open spec fn signed_len(n: u32) -> int {
    if n <= i32::MAX {
        n as int
    } else {
        n - 0x1_0000_0000
    }
}

/// Right edge as the union computes it in signed coordinates.
pub open spec fn right_edge(r: Rect) -> int {
    r.x + signed_len(r.w)
}

/// Bottom edge as the union computes it in signed coordinates.
pub open spec fn bottom_edge(r: Rect) -> int {
    r.y + signed_len(r.h)
}

pub open spec fn in_i32(v: int) -> bool {
    i32::MIN <= v <= i32::MAX
}

/// A signed span read as a size (`as u32`): negative spans wrap around.
pub open spec fn wrap_len(v: int) -> u32 {
    if v >= 0 {
        v as u32
    } else {
        (v + 0x1_0000_0000) as u32
    }
}

/// A rectangle whose size fits the signed coordinate range.
pub open spec fn extent_fits(r: Rect) -> bool {
    r.w <= i32::MAX && r.h <= i32::MAX
}

/// The union of `a` and `b` can be computed without leaving the coordinate range: the
/// edges of both and the covering span stay within `i32`.
pub open spec fn union_fits(a: Rect, b: Rect) -> bool {
    spec_is_empty(a) || spec_is_empty(b) || {
        &&& in_i32(right_edge(a))
        &&& in_i32(right_edge(b))
        &&& in_i32(bottom_edge(a))
        &&& in_i32(bottom_edge(b))
        &&& in_i32(max_int(right_edge(a), right_edge(b)) - min_int(a.x as int, b.x as int))
        &&& in_i32(max_int(bottom_edge(a), bottom_edge(b)) - min_int(a.y as int, b.y as int))
    }
}

/// Smallest rectangle covering both inputs, treating empty rectangles as absent. Sizes
/// are read as signed coordinates, so for a size above `i32::MAX` the result wraps as
/// the signed arithmetic does.
pub open spec fn spec_union(a: Rect, b: Rect) -> Rect {
    if spec_is_empty(a) {
        b
    } else if spec_is_empty(b) {
        a
    } else {
        let x0 = min_int(a.x as int, b.x as int);
        let y0 = min_int(a.y as int, b.y as int);
        let x1 = max_int(right_edge(a), right_edge(b));
        let y1 = max_int(bottom_edge(a), bottom_edge(b));
        Rect { x: x0 as i32, y: y0 as i32, w: wrap_len(x1 - x0), h: wrap_len(y1 - y0) }
    }
}

/// `outer` covers every pixel of `inner`.
pub open spec fn covers(outer: Rect, inner: Rect) -> bool {
    outer.x <= inner.x && outer.y <= inner.y && right(inner) <= right(outer) && bottom(inner)
        <= bottom(outer)
}

impl Rect {
    pub fn new(x: i32, y: i32, w: u32, h: u32) -> (r: Rect)
        ensures
            r == (Rect { x, y, w, h }),
    {
        Rect { x, y, w, h }
    }

    /// Number of pixels covered.
    pub fn area(&self) -> (a: u64)
        ensures
            a == self.w * self.h,
    {
        proof {
            vstd::arithmetic::mul::lemma_mul_upper_bound(
                self.w as int,
                u32::MAX as int,
                self.h as int,
                u32::MAX as int,
            );
        }
        self.w as u64 * self.h as u64
    }

    pub fn is_empty(&self) -> (b: bool)
        ensures
            b == spec_is_empty(*self),
    {
        self.w == 0 || self.h == 0
    }

    /// Whether the covering rectangle of `self` and `other` is representable (see
    /// [`union_fits`]).
    pub fn union_fits(&self, other: &Rect) -> (b: bool)
        ensures
            b == union_fits(*self, *other),
    {
        if self.is_empty() || other.is_empty() {
            return true;
        }
        let ax1 = self.x as i64 + signed(self.w) as i64;
        let ay1 = self.y as i64 + signed(self.h) as i64;
        let bx1 = other.x as i64 + signed(other.w) as i64;
        let by1 = other.y as i64 + signed(other.h) as i64;
        let lo = i32::MIN as i64;
        let hi = i32::MAX as i64;
        if ax1 < lo || ax1 > hi || ay1 < lo || ay1 > hi || bx1 < lo || bx1 > hi || by1 < lo
            || by1 > hi {
            return false;
        }
        let x0 = if self.x <= other.x { self.x } else { other.x } as i64;
        let y0 = if self.y <= other.y { self.y } else { other.y } as i64;
        let x1 = if ax1 >= bx1 { ax1 } else { bx1 };
        let y1 = if ay1 >= by1 { ay1 } else { by1 };
        lo <= x1 - x0 && x1 - x0 <= hi && lo <= y1 - y0 && y1 - y0 <= hi
    }

    /// Smallest rectangle covering both inputs (treating empties as absent).
    pub fn union(&self, other: &Rect) -> (u: Rect)
        requires
            union_fits(*self, *other),
        ensures
            u == spec_union(*self, *other),
    {
        if self.is_empty() {
            return *other;
        }
        if other.is_empty() {
            return *self;
        }
        let x0 = if self.x <= other.x { self.x } else { other.x };
        let y0 = if self.y <= other.y { self.y } else { other.y };
        let ax1 = self.x + signed(self.w);
        let bx1 = other.x + signed(other.w);
        let ay1 = self.y + signed(self.h);
        let by1 = other.y + signed(other.h);
        let x1 = if ax1 >= bx1 { ax1 } else { bx1 };
        let y1 = if ay1 >= by1 { ay1 } else { by1 };
        Rect::new(x0, y0, wrapped(x1 - x0), wrapped(y1 - y0))
    }
}

/// `n as i32`.
fn signed(n: u32) -> (r: i32)
    ensures
        r == signed_len(n),
{
    let r = n as i32;
    assert(n <= 0x7fff_ffff ==> r == n) by (bit_vector)
        requires
            r == n as i32,
    ;
    assert(n > 0x7fff_ffff ==> r == n - 0x1_0000_0000) by (bit_vector)
        requires
            r == n as i32,
    ;
    r
}

/// `v as u32`.
fn wrapped(v: i32) -> (r: u32)
    ensures
        r == wrap_len(v as int),
{
    let r = v as u32;
    assert(v >= 0 ==> r == v) by (bit_vector)
        requires
            r == v as u32,
    ;
    assert(v < 0 ==> r == v + 0x1_0000_0000) by (bit_vector)
        requires
            r == v as u32,
    ;
    r
}

/// Union with an empty rectangle gives back the other rectangle.
pub proof fn lemma_union_empty_is_identity(a: Rect, b: Rect)
    ensures
        spec_is_empty(a) ==> spec_union(a, b) == b,
        spec_is_empty(b) && !spec_is_empty(a) ==> spec_union(a, b) == a,
{
}

/// The union of two non-empty rectangles whose sizes fit the signed coordinate range
/// covers both of them, and any rectangle that covers both also covers their union (it
/// is the smallest covering rectangle).
pub proof fn lemma_union_is_least_cover(a: Rect, b: Rect, c: Rect)
    requires
        union_fits(a, b),
        extent_fits(a),
        extent_fits(b),
        !spec_is_empty(a),
        !spec_is_empty(b),
    ensures
        covers(spec_union(a, b), a),
        covers(spec_union(a, b), b),
        covers(c, a) && covers(c, b) ==> covers(c, spec_union(a, b)),
        !spec_is_empty(spec_union(a, b)),
{
}

/// Union of two non-empty rectangles does not depend on argument order.
pub proof fn lemma_union_commutes(a: Rect, b: Rect)
    requires
        union_fits(a, b),
        !spec_is_empty(a),
        !spec_is_empty(b),
    ensures
        union_fits(b, a),
        spec_union(a, b) == spec_union(b, a),
{
}

/// Which physical panel family the device has.
#[derive(Clone, Copy, Debug, PartialEq, Eq, Structural)]
pub enum PanelKind {
    /// E Ink Carta greyscale (Paper Pure, reMarkable 2).
    Mono,
    /// E Ink Gallery 3 colour (Paper Pro, Paper Pro Move).
    Color,
}

/// Screen orientation. `Portrait` is the device's native upright orientation.
#[derive(Clone, Copy, Debug, PartialEq, Eq, Structural)]
pub enum Orientation {
    Portrait,
    LandscapeRight,
    PortraitFlipped,
    LandscapeLeft,
}

pub open spec fn spec_is_landscape(o: Orientation) -> bool {
    o == Orientation::LandscapeRight || o == Orientation::LandscapeLeft
}

impl Orientation {
    /// True for the two landscape orientations (logical viewport has swapped axes).
    pub fn is_landscape(self) -> (b: bool)
        ensures
            b == spec_is_landscape(self),
    {
        match self {
            Orientation::LandscapeRight | Orientation::LandscapeLeft => true,
            _ => false,
        }
    }
}

/// A target device in the supported lineup.
#[derive(Clone, Copy, Debug, PartialEq, Eq, Structural)]
pub enum Device {
    /// Paper Pro: aarch64, Gallery 3 colour.
    PaperPro,
    /// Paper Pro Move: aarch64, Gallery 3 colour.
    PaperProMove,
    /// Paper Pure: aarch64, Carta mono.
    PaperPure,
    /// reMarkable 2: armv7, Carta mono, reached through the rm2fb shim.
    Rm2,
}

pub open spec fn spec_panel(d: Device) -> PanelKind {
    match d {
        Device::PaperPro | Device::PaperProMove => PanelKind::Color,
        Device::PaperPure | Device::Rm2 => PanelKind::Mono,
    }
}

impl Device {
    pub fn panel(self) -> (k: PanelKind)
        ensures
            k == spec_panel(self),
    {
        match self {
            Device::PaperPro | Device::PaperProMove => PanelKind::Color,
            Device::PaperPure | Device::Rm2 => PanelKind::Mono,
        }
    }

    /// Whether reaching the panel requires the rm2fb shim (true only for the reMarkable 2).
    pub fn needs_rm2fb(self) -> (b: bool)
        ensures
            b == (self == Device::Rm2),
    {
        match self {
            Device::Rm2 => true,
            _ => false,
        }
    }

    /// The backing framebuffer pixel format: RGB565 on every device of the lineup.
    pub fn framebuffer_format(self) -> (f: PanelFormat)
        ensures
            f == PanelFormat::Rgb565,
    {
        PanelFormat::Rgb565
    }
}

/// Pixel format of the backing framebuffer.
#[derive(Clone, Copy, Debug, PartialEq, Eq, Structural)]
pub enum PanelFormat {
    /// 8-bit greyscale, one byte per pixel.
    Y8,
    /// 16-bit RGB565, little-endian, two bytes per pixel.
    Rgb565,
}

pub open spec fn spec_bytes_per_pixel(f: PanelFormat) -> nat {
    match f {
        PanelFormat::Y8 => 1,
        PanelFormat::Rgb565 => 2,
    }
}

/// The RGB565 word for a grey level: red and blue take its top five bits, green its top
/// six.
pub open spec fn rgb565_of_grey(grey: u8) -> int {
    (grey / 8) * 2048 + (grey / 4) * 32 + grey / 8
}

/// The two bytes (little-endian where the format is wider than one byte) that encode a
/// grey level; the second byte is zero for one-byte formats.
pub open spec fn spec_pack_grey(f: PanelFormat, grey: u8) -> Seq<u8> {
    match f {
        PanelFormat::Y8 => seq![grey, 0u8],
        PanelFormat::Rgb565 => seq![
            (rgb565_of_grey(grey) % 256) as u8,
            (rgb565_of_grey(grey) / 256) as u8,
        ],
    }
}

impl PanelFormat {
    pub fn bytes_per_pixel(self) -> (n: usize)
        ensures
            n == spec_bytes_per_pixel(self),
    {
        match self {
            PanelFormat::Y8 => 1,
            PanelFormat::Rgb565 => 2,
        }
    }

    /// Pack an 8-bit grey value into this format's bytes (little-endian).
    pub fn pack_grey(self, grey: u8) -> (b: [u8; 2])
        ensures
            b@ == spec_pack_grey(self, grey),
    {
        match self {
            PanelFormat::Y8 => [grey, 0],
            PanelFormat::Rgb565 => {
                let r = (grey >> 3) as u16;
                let g = (grey >> 2) as u16;
                let b = (grey >> 3) as u16;
                let v: u16 = (r << 11) | (g << 5) | b;
                proof {
                    assert(v == rgb565_of_grey(grey)) by (bit_vector)
                        requires
                            r == grey >> 3,
                            g == grey >> 2,
                            b == grey >> 3,
                            v == (r << 11) | (g << 5) | b,
                    ;
                }
                let lo = (v & 0xff) as u8;
                let hi = (v >> 8) as u8;
                proof {
                    assert(lo == v % 256 && hi == v / 256) by (bit_vector)
                        requires
                            lo == (v & 0xff) as u8,
                            hi == (v >> 8) as u8,
                    ;
                }
                [lo, hi]
            },
        }
    }
}

/// White packs to all-ones and black to all-zeros in both formats' pixel bytes.
pub proof fn lemma_pack_grey_extremes()
    ensures
        spec_pack_grey(PanelFormat::Rgb565, 255) == seq![0xffu8, 0xffu8],
        spec_pack_grey(PanelFormat::Rgb565, 0) == seq![0u8, 0u8],
        spec_pack_grey(PanelFormat::Y8, 255)[0] == 255,
        spec_pack_grey(PanelFormat::Y8, 0)[0] == 0,
{
}

/// Packing keeps the grey level's top bits: an RGB565 pixel is the little-endian word whose
/// red and blue fields hold the top five bits of the grey and whose green field holds its
/// top six; a Y8 pixel is the grey itself.
pub proof fn lemma_pack_grey_fields(grey: u8)
    ensures
        ({
            let b = spec_pack_grey(PanelFormat::Rgb565, grey);
            let word = b[0] + 256 * b[1];
            &&& word / 2048 == grey / 8
            &&& (word / 32) % 64 == grey / 4
            &&& word % 32 == grey / 8
        }),
        spec_pack_grey(PanelFormat::Y8, grey)[0] == grey,
{
    let w = rgb565_of_grey(grey);
    let r = grey / 8;
    let g = grey / 4;
    assert(0 <= r < 32 && 0 <= g < 64);
    assert(w == r * 2048 + g * 32 + r);
    assert(0 <= w < 65536);
    let b = spec_pack_grey(PanelFormat::Rgb565, grey);
    assert(b[0] == w % 256 && b[1] == w / 256);
    assert(b[0] + 256 * b[1] == w);
    assert(w / 2048 == r) by (nonlinear_arith)
        requires
            w == r * 2048 + g * 32 + r,
            0 <= r < 32,
            0 <= g < 64,
    ;
    assert((w / 32) % 64 == g) by (nonlinear_arith)
        requires
            w == r * 2048 + g * 32 + r,
            0 <= r < 32,
            0 <= g < 64,
    ;
    assert(w % 32 == r) by (nonlinear_arith)
        requires
            w == r * 2048 + g * 32 + r,
            0 <= r < 32,
            0 <= g < 64,
    ;
}

} // verus!
