use rmbrowser::pixel::mono::{DitherMode, MonoPipeline};
use rmbrowser::pixel::{PanelBuffer, PixelPipeline, RgbaSurface};
use rmbrowser::types::{PanelFormat, PanelKind, Rect};

fn solid(w: u32, h: u32, rgba: [u8; 4]) -> Vec<u8> {
    let mut v = Vec::with_capacity((w * h * 4) as usize);
    for _ in 0..w * h {
        v.extend_from_slice(&rgba);
    }
    v
}

fn convert_full(pipe: &mut MonoPipeline, w: u32, h: u32, pixels: &[u8]) -> PanelBuffer {
    let src = RgbaSurface { width: w, height: h, pixels };
    let region = Rect::new(0, 0, w, h);
    let mut dst = PanelBuffer::new(w, h, pipe.format());
    pipe.convert(&src, region, &mut dst);
    dst
}

#[test]
fn white_and_black_are_extremes_rgb565() {
    let mut pipe = MonoPipeline::new(PanelFormat::Rgb565);
    let white = convert_full(&mut pipe, 4, 4, &solid(4, 4, [255, 255, 255, 255]));
    let black = convert_full(&mut pipe, 4, 4, &solid(4, 4, [0, 0, 0, 255]));
    assert!(white.bytes.iter().all(|&b| b == 0xFF));
    assert!(black.bytes.iter().all(|&b| b == 0x00));
}

#[test]
fn y8_white_is_255_black_is_0() {
    let mut pipe = MonoPipeline::new(PanelFormat::Y8);
    let white = convert_full(&mut pipe, 2, 2, &solid(2, 2, [255, 255, 255, 255]));
    let black = convert_full(&mut pipe, 2, 2, &solid(2, 2, [0, 0, 0, 255]));
    assert!(white.bytes.iter().all(|&b| b == 255));
    assert!(black.bytes.iter().all(|&b| b == 0));
}

#[test]
fn ordered_dither_uses_multiple_levels_on_gradient() {
    let mut pipe = MonoPipeline::new(PanelFormat::Y8);
    let (w, h) = (64u32, 8u32);
    // Horizontal sRGB ramp.
    let mut px = Vec::new();
    for _y in 0..h {
        for x in 0..w {
            let v = (x * 255 / (w - 1)) as u8;
            px.extend_from_slice(&[v, v, v, 255]);
        }
    }
    let out = convert_full(&mut pipe, w, h, &px);
    let mut levels: Vec<u8> = out.bytes.clone();
    levels.sort_unstable();
    levels.dedup();
    assert!(levels.len() >= 4, "expected several grey levels, got {}", levels.len());
}

#[test]
fn ordered_is_deterministic() {
    let mut pipe = MonoPipeline::new(PanelFormat::Y8);
    let px = solid(8, 8, [120, 120, 120, 255]);
    let a = convert_full(&mut pipe, 8, 8, &px);
    let b = convert_full(&mut pipe, 8, 8, &px);
    assert_eq!(a.bytes, b.bytes);
}

#[test]
fn floyd_preserves_average() {
    let mut pipe = MonoPipeline::new(PanelFormat::Y8).with_dither(DitherMode::FloydSteinberg);
    let (w, h) = (32u32, 32u32);
    let px = solid(w, h, [128, 128, 128, 255]);
    let expected = pipe.luminance([128, 128, 128, 255]) as f64;
    let out = convert_full(&mut pipe, w, h, &px);
    let avg = out.bytes.iter().map(|&b| b as f64).sum::<f64>() / out.bytes.len() as f64;
    assert!((avg - expected).abs() < 6.0, "avg {avg} vs expected {expected}");
}

#[test]
fn neutral_grey_luminance_is_table_value() {
    let pipe = MonoPipeline::new(PanelFormat::Y8);
    // The sRGB→linear table maps 128 to 55 and 255 to 255.
    assert_eq!(pipe.luminance([128, 128, 128, 255]), 55);
    assert_eq!(pipe.luminance([255, 255, 255, 0]), 255);
    assert_eq!(pipe.luminance([0, 0, 0, 255]), 0);
    // Pure green: 183 * 255 / 256.
    assert_eq!(pipe.luminance([0, 255, 0, 255]), 182);
}

#[test]
fn ordered_output_only_uses_sixteen_levels() {
    let mut pipe = MonoPipeline::new(PanelFormat::Y8);
    let mut px = Vec::new();
    for i in 0..256u32 {
        let v = i as u8;
        px.extend_from_slice(&[v, v, v, 255]);
    }
    let out = convert_full(&mut pipe, 16, 16, &px);
    assert!(out.bytes.iter().all(|&b| b % 17 == 0));
}

#[test]
fn ordered_is_phase_stable_across_regions() {
    let mut pipe = MonoPipeline::new(PanelFormat::Y8);
    let (w, h) = (16u32, 16u32);
    let px = solid(w, h, [150, 150, 150, 255]);
    let src = RgbaSurface { width: w, height: h, pixels: &px };
    let full = convert_full(&mut pipe, w, h, &px);
    let region = Rect::new(3, 5, 6, 4);
    let mut part = PanelBuffer::new(6, 4, PanelFormat::Y8);
    let written = pipe.convert(&src, region, &mut part);
    assert_eq!(written, region);
    for ry in 0..4usize {
        for rx in 0..6usize {
            assert_eq!(part.bytes[ry * 6 + rx], full.bytes[(ry + 5) * 16 + rx + 3]);
        }
    }
}

#[test]
fn written_region_is_clamped_to_source() {
    let mut pipe = MonoPipeline::new(PanelFormat::Rgb565);
    let px = solid(4, 4, [255, 255, 255, 255]);
    let src = RgbaSurface { width: 4, height: 4, pixels: &px };
    let mut dst = PanelBuffer::new(3, 3, PanelFormat::Rgb565);
    let written = pipe.convert(&src, Rect::new(2, 3, 3, 3), &mut dst);
    assert_eq!(written, Rect::new(2, 3, 2, 1));
    // Inside the surface white, outside it black.
    assert_eq!(&dst.bytes[0..2], &[0xFF, 0xFF]);
    assert_eq!(&dst.bytes[4..6], &[0x00, 0x00]);
}

#[test]
fn floyd_on_mid_grey_mixes_neighbouring_levels() {
    let mut pipe = MonoPipeline::new(PanelFormat::Y8).with_dither(DitherMode::FloydSteinberg);
    assert_eq!(pipe.dither(), DitherMode::FloydSteinberg);
    assert_eq!(pipe.panel(), PanelKind::Mono);
    let out = convert_full(&mut pipe, 8, 8, &solid(8, 8, [128, 128, 128, 255]));
    // Linear 55 lies between levels 51 and 68: only those two appear.
    assert!(out.bytes.iter().all(|&b| b == 51 || b == 68));
    assert!(out.bytes.iter().any(|&b| b == 51));
    assert!(out.bytes.iter().any(|&b| b == 68));
}

#[test]
fn panel_buffer_is_zeroed_and_sized() {
    let b = PanelBuffer::new(3, 5, PanelFormat::Rgb565);
    assert_eq!(b.bytes.len(), 30);
    assert!(b.bytes.iter().all(|&x| x == 0));
    assert_eq!((b.width, b.height, b.format), (3, 5, PanelFormat::Rgb565));
}

#[test]
fn rgba_outside_is_opaque_black() {
    let px = [1, 2, 3, 4, 5, 6, 7, 8];
    let s = RgbaSurface { width: 2, height: 1, pixels: &px };
    assert_eq!(s.rgba(1, 0), [5, 6, 7, 8]);
    assert_eq!(s.rgba(2, 0), [0, 0, 0, 255]);
    assert_eq!(s.rgba(0, 1), [0, 0, 0, 255]);
}

#[test]
fn gamma_table_matches_srgb_formula() {
    let pipe = MonoPipeline::new(PanelFormat::Y8);
    for i in 0..=255u32 {
        let c = i as f32 / 255.0;
        let lin = if c <= 0.04045 { c / 12.92 } else { ((c + 0.055) / 1.055).powf(2.4) };
        let want = (lin * 255.0).round().clamp(0.0, 255.0) as u8;
        let v = i as u8;
        // A neutral grey's luminance is the table entry for its channel value.
        assert_eq!(pipe.luminance([v, v, v, 255]), want);
    }
}
