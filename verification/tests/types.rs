use rmbrowser::input::ButtonId;
use rmbrowser::types::{Device, Orientation, PanelFormat, PanelKind, Point, Rect};

#[test]
fn rect_basics() {
    let r = Rect::new(1, 2, 3, 4);
    assert_eq!((r.x, r.y, r.w, r.h), (1, 2, 3, 4));
    assert_eq!(r.area(), 12);
    assert!(!r.is_empty());
    assert!(Rect::new(5, 5, 0, 9).is_empty());
    assert_eq!(Rect::new(0, 0, u32::MAX, u32::MAX).area(), u32::MAX as u64 * u32::MAX as u64);
    let p = Point::new(-3, 4);
    assert_eq!((p.x, p.y), (-3, 4));
}

#[test]
fn union_covers_both() {
    let a = Rect::new(0, 0, 10, 10);
    let b = Rect::new(5, -5, 10, 10);
    assert_eq!(a.union(&b), Rect::new(0, -5, 15, 15));
    assert_eq!(b.union(&a), a.union(&b));
}

#[test]
fn union_with_empty_is_identity() {
    let a = Rect::new(3, 4, 5, 6);
    let e = Rect::new(100, 100, 0, 0);
    assert_eq!(a.union(&e), a);
    assert_eq!(e.union(&a), a);
    assert!(a.union_fits(&e));
    assert!(!Rect::new(i32::MIN, 0, 1, 1).union_fits(&Rect::new(i32::MAX - 1, 0, 1, 1)));
}

#[test]
fn device_profiles() {
    assert_eq!(Device::PaperPro.panel(), PanelKind::Color);
    assert_eq!(Device::PaperProMove.panel(), PanelKind::Color);
    assert_eq!(Device::Rm2.panel(), PanelKind::Mono);
    assert!(Device::Rm2.needs_rm2fb());
    assert!(!Device::PaperPro.needs_rm2fb());
    assert_eq!(Device::Rm2.framebuffer_format(), PanelFormat::Rgb565);
    assert_eq!(ButtonId::Power, ButtonId::Power);
}

#[test]
fn orientation_landscape() {
    assert!(Orientation::LandscapeLeft.is_landscape());
    assert!(Orientation::LandscapeRight.is_landscape());
    assert!(!Orientation::Portrait.is_landscape());
    assert!(!Orientation::PortraitFlipped.is_landscape());
}

#[test]
fn pack_grey_formats() {
    assert_eq!(PanelFormat::Y8.bytes_per_pixel(), 1);
    assert_eq!(PanelFormat::Rgb565.bytes_per_pixel(), 2);
    assert_eq!(PanelFormat::Y8.pack_grey(77), [77, 0]);
    assert_eq!(PanelFormat::Rgb565.pack_grey(255), [0xFF, 0xFF]);
    assert_eq!(PanelFormat::Rgb565.pack_grey(0), [0, 0]);
    // 136: r=b=17, g=34 -> 17<<11 | 34<<5 | 17 = 0x8C51
    assert_eq!(PanelFormat::Rgb565.pack_grey(136), [0x51, 0x8C]);
}

#[test]
fn union_reads_huge_sizes_as_signed() {
    // A width above i32::MAX is read as a negative signed size, as `as i32` does.
    let wide = Rect::new(0, 0, 0x8000_0000, 1);
    let one = Rect::new(0, 0, 1, 1);
    assert!(wide.union_fits(&one));
    assert_eq!(wide.union(&one), Rect::new(0, 0, 1, 1));
    assert_eq!(wide.union(&wide), Rect::new(0, 0, 0x8000_0000, 1));
    // Here the signed right edge leaves the i32 range.
    assert!(!Rect::new(1, 0, 0x7fff_ffff, 1).union_fits(&one));
}
