//! Display backend: how panel-ready bytes reach the glass.
//!
//! Two transports sit behind [`DisplayBackend`]: a direct kernel EPDC framebuffer and the
//! reMarkable 2's rm2fb server. The rest of the viewer never knows which. What a backend
//! computes before it talks to the panel — the kernel's update rectangle and the EPDC
//! waveform, dither and quantisation flags for a [`Waveform`] — is defined here.

use vstd::prelude::*;
use crate::display::{Waveform, WaveformMode, spec_is_bitonal};
use crate::types::Rect;

verus! {

/// One panel update request handed to a [`DisplayBackend`].
#[derive(Clone, Copy, Debug, PartialEq, Eq, Structural)]
pub struct UpdateRequest {
    pub region: Rect,
    pub waveform: Waveform,
    /// Full (clearing) vs partial update.
    pub full: bool,
}

/// An opaque marker for an in-flight update, used to wait for completion.
#[derive(Clone, Copy, Debug, PartialEq, Eq, Structural)]
pub struct UpdateMarker(pub u32);

/// Detected panel geometry/format, probed at startup.
#[derive(Clone, Copy, Debug, PartialEq, Eq, Structural)]
pub struct PanelInfo {
    pub width: u32,
    pub height: u32,
    /// Bytes per pixel of the backing framebuffer (e.g. 2 for RGB565, 1 for Y8).
    pub bytes_per_pixel: u8,
}

/// The seam to the panel. Implementors own the framebuffer and the update transport.
pub trait DisplayBackend {
    fn panel_info(&self) -> &PanelInfo;

    /// Write already-converted bytes into the backing buffer at `region`.
    fn blit(&mut self, region: Rect, bytes: &[u8]);

    /// Submit an update; returns a marker the caller may later wait on.
    fn submit(&mut self, req: &UpdateRequest) -> UpdateMarker;

    /// Block until the given update has completed (used only before dependent flushes).
    fn wait(&mut self, marker: UpdateMarker);
}

/// The kernel's update rectangle (`mxcfb_rect`): unsigned top-left corner and size.
#[derive(Clone, Copy, Debug, PartialEq, Eq, Structural)]
pub struct MxcfbRect {
    pub top: u32,
    pub left: u32,
    pub width: u32,
    pub height: u32,
}

/// The EPDC waveform modes the rm2fb transport is driven with.
#[derive(Clone, Copy, Debug, PartialEq, Eq, Structural)]
pub enum EpdcWaveform {
    Init,
    Du,
    Gc16,
    Gc16Fast,
    Glr16,
}

/// The EPDC dither flags the rm2fb transport is driven with.
#[derive(Clone, Copy, Debug, PartialEq, Eq, Structural)]
pub enum EpdcDither {
    /// No dithering: the panel takes the bytes as they are.
    Passthrough,
    /// The experimental flag the reference drawing path uses with DU.
    Exp1,
}

/// Everything a partial refresh is submitted with, but the transport itself.
#[derive(Clone, Copy, Debug, PartialEq, Eq, Structural)]
pub struct RefreshParams {
    pub rect: MxcfbRect,
    pub waveform: EpdcWaveform,
    pub dither: EpdcDither,
    /// Whether the drawing quantisation bit is set (otherwise the quantisation word is 0).
    pub drawing_quant: bool,
    /// Force a full (clearing) refresh.
    pub full: bool,
}

/// A signed coordinate clamped at zero.
pub open spec fn clamp_coord(v: i32) -> u32 {
    if v < 0 {
        0
    } else {
        v as u32
    }
}

/// The kernel rectangle of a region: negative coordinates clamp to the panel edge, the
/// size is kept.
pub open spec fn spec_to_mxcfb_rect(r: Rect) -> MxcfbRect {
    MxcfbRect { top: clamp_coord(r.y), left: clamp_coord(r.x), width: r.w, height: r.h }
}

/// Kernel update rectangle for a region (negative coordinates clamp to zero).
pub fn to_mxcfb_rect(r: Rect) -> (m: MxcfbRect)
    ensures
        m == spec_to_mxcfb_rect(r),
{
    let top: u32 = if r.y < 0 {
        0
    } else {
        r.y as u32
    };
    let left: u32 = if r.x < 0 {
        0
    } else {
        r.x as u32
    };
    MxcfbRect { top, left, width: r.w, height: r.h }
}

/// The mono mode a waveform is driven as on the mono RM2 panel: a colour class (which
/// never occurs there) falls back to the safe quality mode GC16.
pub open spec fn mono_mode_of(w: Waveform) -> WaveformMode {
    match w {
        Waveform::Mono(m) => m,
        Waveform::Color(_) => WaveformMode::Gc16,
    }
}

/// EPDC parameters of a waveform: DU and A2 (which the transport has no name for) both
/// drive DU with the EXP1 dither flag and the drawing quantisation bit; INIT, GC16 and
/// GLR16 drive themselves; GL16 and DU4 drive GC16_FAST; all but DU/A2 use passthrough
/// dithering and a zero quantisation word.
pub open spec fn spec_map_waveform(w: Waveform) -> (EpdcWaveform, EpdcDither, bool) {
    match mono_mode_of(w) {
        WaveformMode::Init => (EpdcWaveform::Init, EpdcDither::Passthrough, false),
        WaveformMode::Du | WaveformMode::A2 => (EpdcWaveform::Du, EpdcDither::Exp1, true),
        WaveformMode::Gc16 => (EpdcWaveform::Gc16, EpdcDither::Passthrough, false),
        WaveformMode::Gl16 | WaveformMode::Du4 => (
            EpdcWaveform::Gc16Fast,
            EpdcDither::Passthrough,
            false,
        ),
        WaveformMode::Glr16 => (EpdcWaveform::Glr16, EpdcDither::Passthrough, false),
    }
}

/// Map a waveform to the EPDC waveform mode plus its dither flag and whether the drawing
/// quantisation bit is set.
pub fn map_waveform(w: Waveform) -> (p: (EpdcWaveform, EpdcDither, bool))
    ensures
        p == spec_map_waveform(w),
{
    let mono = match w {
        Waveform::Mono(m) => m,
        // Colour never occurs on the RM2 (mono panel); pick a safe quality mode.
        Waveform::Color(_) => WaveformMode::Gc16,
    };
    match mono {
        WaveformMode::Init => (EpdcWaveform::Init, EpdcDither::Passthrough, false),
        WaveformMode::Du | WaveformMode::A2 => (EpdcWaveform::Du, EpdcDither::Exp1, true),
        WaveformMode::Gc16 => (EpdcWaveform::Gc16, EpdcDither::Passthrough, false),
        WaveformMode::Gl16 | WaveformMode::Du4 => (
            EpdcWaveform::Gc16Fast,
            EpdcDither::Passthrough,
            false,
        ),
        WaveformMode::Glr16 => (EpdcWaveform::Glr16, EpdcDither::Passthrough, false),
    }
}

/// The parameters an update request is submitted with.
pub open spec fn spec_refresh_params(req: UpdateRequest) -> RefreshParams {
    let (waveform, dither, drawing_quant) = spec_map_waveform(req.waveform);
    RefreshParams {
        rect: spec_to_mxcfb_rect(req.region),
        waveform,
        dither,
        drawing_quant,
        full: req.full,
    }
}

/// What a partial refresh for `req` is submitted with: the clamped region, the mapped
/// waveform parameters, and the full-refresh flag.
pub fn refresh_params(req: &UpdateRequest) -> (p: RefreshParams)
    ensures
        p == spec_refresh_params(*req),
{
    let rect = to_mxcfb_rect(req.region);
    let (waveform, dither, drawing_quant) = map_waveform(req.waveform);
    RefreshParams { rect, waveform, dither, drawing_quant, full: req.full }
}

/// Only the bitonal fast modes set the drawing quantisation bit, and every colour class is
/// driven as GC16 on the mono panel.
pub proof fn lemma_quant_bit_only_for_bitonal_mono(w: Waveform)
    ensures
        spec_map_waveform(w).2 <==> (w == Waveform::Mono(WaveformMode::Du) || w == Waveform::Mono(
            WaveformMode::A2,
        )),
        w is Color ==> spec_map_waveform(w) == spec_map_waveform(
            Waveform::Mono(WaveformMode::Gc16),
        ),
{
}

/// The fast path is one mode: DU, the EXP1 dither flag and the drawing quantisation bit
/// always go together, and they are used exactly for the bitonal mono waveforms; every
/// other waveform drives passthrough dithering, and no waveform but INIT drives INIT.
pub proof fn lemma_fast_path_parameters(w: Waveform)
    ensures
        (spec_map_waveform(w).0 == EpdcWaveform::Du) == (spec_map_waveform(w).1
            == EpdcDither::Exp1),
        (spec_map_waveform(w).1 == EpdcDither::Exp1) == spec_map_waveform(w).2,
        spec_map_waveform(w).2 <==> (w is Mono && spec_is_bitonal(w)),
        spec_map_waveform(w).0 == EpdcWaveform::Init <==> w == Waveform::Mono(WaveformMode::Init),
        spec_map_waveform(w).0 == EpdcWaveform::Glr16 <==> w == Waveform::Mono(WaveformMode::Glr16),
{
}

} // verus!
