use rmbrowser::display::{
    ColorClass, ContentClass, Decision, FsmLimits, Mode, RefreshState, Waveform, WaveformMode,
};
use rmbrowser::types::{PanelKind, Rect};

/// The update-rate moving average the viewer keeps beside the state machine: enter fast
/// mode at 4 Hz, smoothing factor 0.4; the average is reset when fast mode settles.
struct Controller {
    state: RefreshState,
    rate_ema: f32,
}

impl Controller {
    fn new(panel: PanelKind, limits: FsmLimits) -> Self {
        Controller { state: RefreshState::new(panel, limits), rate_ema: 0.0 }
    }

    fn on_update(&mut self, now_ms: u64, region: Rect, content: ContentClass) -> Decision {
        if let Some(prev) = self.state.last_update_ms() {
            let dt = now_ms.saturating_sub(prev).max(1) as f32;
            let inst_hz = 1000.0 / dt;
            self.rate_ema = self.rate_ema * (1.0 - 0.4) + inst_hz * 0.4;
        }
        assert!(self.state.can_take(&region));
        self.state.on_update(now_ms, region, content, self.rate_ema >= 4.0)
    }

    fn settle(&mut self, now_ms: u64) -> Option<Rect> {
        let was_fast = self.state.mode() == Mode::Fast;
        let r = self.state.settle(now_ms);
        if was_fast && self.state.mode() == Mode::Quality {
            self.rate_ema = 0.0;
        }
        r
    }

    fn mode(&self) -> Mode {
        self.state.mode()
    }
}

fn rect() -> Rect {
    Rect::new(0, 0, 100, 100)
}

#[test]
fn no_accidental_fast_mode_on_brief_burst() {
    let mut fsm = Controller::new(PanelKind::Mono, FsmLimits::default_limits());
    // Two updates 10ms apart = ~100 Hz instantaneous, but only 2 frames < enter_fast_frames(3).
    let d0 = fsm.on_update(0, rect(), ContentClass::Text);
    let d1 = fsm.on_update(10, rect(), ContentClass::Text);
    assert_eq!(fsm.mode(), Mode::Quality);
    assert!(!d0.entered_fast && !d1.entered_fast);
}

#[test]
fn sustained_high_rate_enters_fast() {
    let mut fsm = Controller::new(PanelKind::Mono, FsmLimits::default_limits());
    let mut t = 0;
    let mut entered = false;
    for _ in 0..8 {
        let d = fsm.on_update(t, rect(), ContentClass::MonoGrey);
        entered |= d.entered_fast;
        t += 30;
    }
    assert_eq!(fsm.mode(), Mode::Fast);
    assert!(entered);
}

#[test]
fn text_fast_path_uses_du_not_a2() {
    let mut fsm = Controller::new(PanelKind::Mono, FsmLimits::default_limits());
    let mut t = 0;
    let mut last = None;
    for _ in 0..8 {
        last = Some(fsm.on_update(t, rect(), ContentClass::Text));
        t += 30;
    }
    assert_eq!(fsm.mode(), Mode::Fast);
    assert_eq!(last.unwrap().waveform, Waveform::Mono(WaveformMode::Du));
}

#[test]
fn grey_fast_path_uses_a2() {
    let mut fsm = Controller::new(PanelKind::Mono, FsmLimits::default_limits());
    let mut t = 0;
    let mut last = None;
    for _ in 0..8 {
        last = Some(fsm.on_update(t, rect(), ContentClass::MonoGrey));
        t += 30;
    }
    assert_eq!(last.unwrap().waveform, Waveform::Mono(WaveformMode::A2));
}

#[test]
fn ghost_flush_after_budget() {
    let limits = FsmLimits { ghost_flush_n: 5, ..FsmLimits::default_limits() };
    let mut fsm = Controller::new(PanelKind::Mono, limits);
    let mut t = 0;
    let mut flushes = 0;
    for _ in 0..30 {
        let d = fsm.on_update(t, rect(), ContentClass::MonoGrey);
        if d.flush.is_some() {
            flushes += 1;
        }
        t += 30;
    }
    assert!(flushes >= 1, "expected at least one ghost flush");
}

#[test]
fn settle_exits_fast_and_flushes() {
    let mut fsm = Controller::new(PanelKind::Mono, FsmLimits::default_limits());
    let mut t = 0;
    for _ in 0..8 {
        fsm.on_update(t, rect(), ContentClass::MonoGrey);
        t += 30;
    }
    assert_eq!(fsm.mode(), Mode::Fast);
    let flush = fsm.settle(t + 1000);
    assert_eq!(fsm.mode(), Mode::Quality);
    assert!(flush.is_some());
}

#[test]
fn color_panel_motion_stays_mono() {
    let mut fsm = Controller::new(PanelKind::Color, FsmLimits::default_limits());
    let mut t = 0;
    let mut last = None;
    for _ in 0..8 {
        last = Some(fsm.on_update(t, rect(), ContentClass::Color));
        t += 30;
    }
    assert_eq!(fsm.mode(), Mode::Fast);
    assert_eq!(last.unwrap().waveform, Waveform::Color(ColorClass::MonoPartial));
}

#[test]
fn color_panel_static_paints_color() {
    let mut fsm = Controller::new(PanelKind::Color, FsmLimits::default_limits());
    let d = fsm.on_update(0, rect(), ContentClass::Color);
    assert_eq!(d.waveform, Waveform::Color(ColorClass::StandardColor));
}

// ---- the state machine driven directly by the rate signal ----

fn limits(frames: u32, flush_n: u32) -> FsmLimits {
    FsmLimits { enter_fast_frames: frames, settle_ms: 350, ghost_flush_n: flush_n }
}

#[test]
fn default_limits_values() {
    let l = FsmLimits::default_limits();
    assert_eq!((l.enter_fast_frames, l.settle_ms, l.ghost_flush_n), (3, 350, 12));
}

#[test]
fn enters_fast_on_exactly_the_threshold_update() {
    let mut s = RefreshState::new(PanelKind::Mono, limits(3, 12));
    assert!(!s.on_update(0, rect(), ContentClass::Text, true).entered_fast);
    assert!(!s.on_update(1, rect(), ContentClass::Text, true).entered_fast);
    let d = s.on_update(2, rect(), ContentClass::Text, true);
    assert!(d.entered_fast);
    assert_eq!(d.waveform, Waveform::Mono(WaveformMode::Du));
    assert_eq!(s.mode(), Mode::Fast);
    assert_eq!(s.last_update_ms(), Some(2));
}

#[test]
fn a_slow_update_resets_the_hysteresis_count() {
    let mut s = RefreshState::new(PanelKind::Mono, limits(3, 12));
    s.on_update(0, rect(), ContentClass::Text, true);
    s.on_update(1, rect(), ContentClass::Text, true);
    s.on_update(2, rect(), ContentClass::Text, false);
    s.on_update(3, rect(), ContentClass::Text, true);
    s.on_update(4, rect(), ContentClass::Text, true);
    assert_eq!(s.mode(), Mode::Quality);
    assert!(s.on_update(5, rect(), ContentClass::Text, true).entered_fast);
}

#[test]
fn quality_waveforms_on_mono_panel() {
    let mut s = RefreshState::new(PanelKind::Mono, limits(3, 12));
    assert_eq!(s.on_update(0, rect(), ContentClass::Text, false).waveform, Waveform::Mono(WaveformMode::Gl16));
    assert_eq!(s.on_update(1, rect(), ContentClass::MonoGrey, false).waveform, Waveform::Mono(WaveformMode::Gc16));
    let d = s.on_update(2, rect(), ContentClass::Color, false);
    assert_eq!(d.waveform, Waveform::Mono(WaveformMode::Gc16));
    assert_eq!(d.flush, None);
}

#[test]
fn ghost_flush_covers_the_touched_region_and_renews_budget() {
    let mut s = RefreshState::new(PanelKind::Mono, limits(1, 3));
    // Entering fast: this update already spends one unit.
    let d0 = s.on_update(0, Rect::new(10, 10, 5, 5), ContentClass::MonoGrey, true);
    assert!(d0.entered_fast && d0.flush.is_none());
    let d1 = s.on_update(1, Rect::new(0, 0, 2, 2), ContentClass::MonoGrey, true);
    assert!(d1.flush.is_none());
    let d2 = s.on_update(2, Rect::new(20, 0, 1, 1), ContentClass::Text, true);
    assert_eq!(d2.flush, Some(Rect::new(0, 0, 21, 15)));
    // Budget renewed: two more updates without a flush, the third flushes.
    assert!(s.on_update(3, rect(), ContentClass::Text, true).flush.is_none());
    assert!(s.on_update(4, rect(), ContentClass::Text, true).flush.is_none());
    assert_eq!(s.on_update(5, rect(), ContentClass::Text, true).flush, Some(Rect::new(0, 0, 100, 100)));
}

#[test]
fn settle_outside_fast_mode_does_nothing() {
    let mut s = RefreshState::new(PanelKind::Mono, limits(3, 12));
    assert_eq!(s.settle(10_000), None);
    assert_eq!(s.mode(), Mode::Quality);
}

#[test]
fn settle_waits_for_the_dwell() {
    let mut s = RefreshState::new(PanelKind::Mono, limits(1, 12));
    s.on_update(1000, Rect::new(5, 5, 10, 10), ContentClass::MonoGrey, true);
    assert_eq!(s.mode(), Mode::Fast);
    assert_eq!(s.settle(1100), None);
    assert_eq!(s.settle(1349), None);
    assert_eq!(s.mode(), Mode::Fast);
    // Once idle for the dwell it settles, flushing the touched region.
    assert_eq!(s.settle(1350), Some(Rect::new(5, 5, 10, 10)));
    assert_eq!(s.mode(), Mode::Quality);
    assert_eq!(s.settle(5000), None);
    // The touched region is forgotten.
    s.on_update(2000, rect(), ContentClass::MonoGrey, true);
    assert_eq!(s.settle(2350), Some(rect()));
}

#[test]
fn settle_with_empty_touched_region_flushes_nothing() {
    let mut s = RefreshState::new(PanelKind::Mono, limits(1, 12));
    s.on_update(0, Rect::new(0, 0, 0, 0), ContentClass::Text, true);
    assert_eq!(s.mode(), Mode::Fast);
    assert_eq!(s.settle(1000), None);
    assert_eq!(s.mode(), Mode::Quality);
}

#[test]
fn bitonal_classification() {
    assert!(Waveform::Mono(WaveformMode::A2).is_bitonal());
    assert!(Waveform::Mono(WaveformMode::Du).is_bitonal());
    assert!(Waveform::Color(ColorClass::MonoPartial).is_bitonal());
    assert!(!Waveform::Mono(WaveformMode::Gc16).is_bitonal());
    assert!(!Waveform::Mono(WaveformMode::Du4).is_bitonal());
    assert!(!Waveform::Color(ColorClass::BestColor).is_bitonal());
}

#[test]
fn no_settle_before_dwell_after_slow_updates() {
    // Slow updates keep the rate low, yet fast mode holds until the dwell has passed.
    let mut fsm = Controller::new(PanelKind::Mono, FsmLimits::default_limits());
    let mut t = 0;
    for _ in 0..8 {
        fsm.on_update(t, rect(), ContentClass::MonoGrey);
        t += 30;
    }
    for _ in 0..4 {
        fsm.on_update(t, rect(), ContentClass::MonoGrey);
        t += 300;
    }
    assert_eq!(fsm.mode(), Mode::Fast);
    let last = t - 300;
    assert_eq!(fsm.settle(last + 100), None);
    assert_eq!(fsm.mode(), Mode::Fast);
    assert_eq!(fsm.settle(last + 350), Some(rect()));
    assert_eq!(fsm.mode(), Mode::Quality);
}

#[test]
fn ghost_budget_cycles_every_n_updates() {
    let mut s = RefreshState::new(PanelKind::Color, limits(1, 4));
    let mut flushes = Vec::new();
    for k in 0..12u64 {
        flushes.push(s.on_update(k, rect(), ContentClass::Color, true).flush.is_some());
    }
    let expected: Vec<bool> = (0..12).map(|j| (j + 1) % 4 == 0).collect();
    assert_eq!(flushes, expected);
}
