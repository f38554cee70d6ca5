//! Waveform modes and the refresh-mode state machine.
//!
//! The state machine picks an e-ink waveform per update from the redraw rate, the content
//! class of the dirty region and the current mode — switching to fast, low-quality modes
//! only past a rate threshold with hysteresis, and suppressing the animation mode when
//! only text is redrawn. The rate itself is a floating-point moving average kept by the
//! caller; each update hands in whether it is at or above the threshold.

use vstd::prelude::*;
use crate::types::{PanelKind, Rect, spec_empty_rect, spec_is_empty, spec_union, union_fits};

verus! {

/// Mono (Carta) EPDC waveform modes, with their typical latencies.
#[derive(Clone, Copy, Debug, PartialEq, Eq, Structural)]
pub enum WaveformMode {
    /// Full clear / de-ghost flash (~780 ms).
    Init,
    /// Direct Update: fast bitonal, ~170 ms. Text/UI fast path.
    Du,
    /// 16-level greyscale, flashing, ~460 ms. Quality default for images/page.
    Gc16,
    /// Sparse anti-aliased text, reduced flash, ~460 ms.
    Gl16,
    /// REAGL anti-aliased text, reduced flash, ~460 ms.
    Glr16,
    /// Fastest bitonal animation, ~135 ms. Scroll/pan; ghosts, so must be flushed.
    A2,
    /// Non-flashing 4-level, ~300 ms. Menus.
    Du4,
}

/// Colour (Gallery 3) refresh classes. Colour is never used during motion — the mono
/// partial path is the fast path.
#[derive(Clone, Copy, Debug, PartialEq, Eq, Structural)]
pub enum ColorClass {
    /// Mono / B-W partial update: the colour-panel fast path.
    MonoPartial,
    /// Quick colour paint (~500 ms).
    FastColor,
    /// Normal static colour paint (~750–1000 ms).
    StandardColor,
    /// Best colour, hi-fi only (~1500 ms).
    BestColor,
}

/// The waveform a [`Decision`] selects — one of the two panel families.
#[derive(Clone, Copy, Debug, PartialEq, Eq, Structural)]
pub enum Waveform {
    Mono(WaveformMode),
    Color(ColorClass),
}

/// A 1-bit/bitonal-class update, which accrues ghosting.
pub open spec fn spec_is_bitonal(w: Waveform) -> bool {
    w == Waveform::Mono(WaveformMode::A2) || w == Waveform::Mono(WaveformMode::Du) || w
        == Waveform::Color(ColorClass::MonoPartial)
}

impl Waveform {
    /// Whether this is a 1-bit/bitonal-class update that accrues ghosting.
    pub fn is_bitonal(self) -> (b: bool)
        ensures
            b == spec_is_bitonal(self),
    {
        match self {
            Waveform::Mono(WaveformMode::A2) | Waveform::Mono(WaveformMode::Du) => true,
            Waveform::Color(ColorClass::MonoPartial) => true,
            _ => false,
        }
    }
}

/// Cheap classification of a dirty region, produced during raster.
#[derive(Clone, Copy, Debug, PartialEq, Eq, Structural)]
pub enum ContentClass {
    /// Near-bitonal: text / UI chrome. Never needs the animation mode.
    Text,
    /// Greyscale image or gradient.
    MonoGrey,
    /// Chromatic content (only meaningful on a colour panel).
    Color,
}

/// High-level refresh mode the controller is in.
#[derive(Clone, Copy, Debug, PartialEq, Eq, Structural)]
pub enum Mode {
    /// Quality waveforms (GC16 / colour). Default, idle / low rate.
    Quality,
    /// Fast waveforms (A2 / DU / mono-partial). Engaged only past the rate threshold.
    Fast,
}

/// What the controller decided for one update.
#[derive(Clone, Copy, Debug, PartialEq, Eq, Structural)]
pub struct Decision {
    /// Region to update.
    pub region: Rect,
    /// Waveform to drive it with.
    pub waveform: Waveform,
    /// If set, also issue a full-region quality flush (ghost budget hit) over this rect.
    pub flush: Option<Rect>,
    /// True if this update transitioned Quality → Fast.
    pub entered_fast: bool,
}

/// The waveform for a panel family, mode and content class: fast mono text uses DU and
/// fast mono grey uses A2; quality mono text uses GL16 and grey GC16; a colour panel uses
/// the mono partial path in fast mode and for non-colour content, and standard colour for
/// colour content at rest.
pub open spec fn spec_select_waveform(panel: PanelKind, mode: Mode, content: ContentClass) -> Waveform {
    match (panel, mode, content) {
        (PanelKind::Mono, Mode::Fast, ContentClass::Text) => Waveform::Mono(WaveformMode::Du),
        (PanelKind::Mono, Mode::Fast, _) => Waveform::Mono(WaveformMode::A2),
        (PanelKind::Mono, Mode::Quality, ContentClass::Text) => Waveform::Mono(WaveformMode::Gl16),
        (PanelKind::Mono, Mode::Quality, _) => Waveform::Mono(WaveformMode::Gc16),
        (PanelKind::Color, Mode::Fast, _) => Waveform::Color(ColorClass::MonoPartial),
        (PanelKind::Color, Mode::Quality, ContentClass::Color) => Waveform::Color(
            ColorClass::StandardColor,
        ),
        (PanelKind::Color, Mode::Quality, _) => Waveform::Color(ColorClass::MonoPartial),
    }
}

fn select_waveform(panel: PanelKind, mode: Mode, content: ContentClass) -> (w: Waveform)
    ensures
        w == spec_select_waveform(panel, mode, content),
{
    match (panel, mode, content) {
        // ---- Mono panel ----
        // Fast: text → DU (bitonal, not A2); grey/image → A2.
        (PanelKind::Mono, Mode::Fast, ContentClass::Text) => Waveform::Mono(WaveformMode::Du),
        (PanelKind::Mono, Mode::Fast, _) => Waveform::Mono(WaveformMode::A2),
        // Quality: text → GL16; grey/image → GC16.
        (PanelKind::Mono, Mode::Quality, ContentClass::Text) => Waveform::Mono(WaveformMode::Gl16),
        (PanelKind::Mono, Mode::Quality, _) => Waveform::Mono(WaveformMode::Gc16),
        // ---- Colour panel ----
        // Fast: always the mono partial path; colour is never driven during motion.
        (PanelKind::Color, Mode::Fast, _) => Waveform::Color(ColorClass::MonoPartial),
        // Quality: text/grey → mono partial (fast B-W); colour → standard colour.
        (PanelKind::Color, Mode::Quality, ContentClass::Color) => Waveform::Color(
            ColorClass::StandardColor,
        ),
        (PanelKind::Color, Mode::Quality, _) => Waveform::Color(ColorClass::MonoPartial),
    }
}

/// The integer thresholds of the state machine (the rate thresholds and the moving
/// average's smoothing factor live with the caller).
#[derive(Clone, Copy, Debug, PartialEq, Eq, Structural)]
pub struct FsmLimits {
    /// Consecutive at-or-above-threshold updates required to enter fast mode (hysteresis).
    pub enter_fast_frames: u32,
    /// Idle dwell (ms) with no update before a settle (exit fast + quality flush).
    pub settle_ms: u64,
    /// Consecutive bitonal fast updates before a ghost-clearing full flush.
    pub ghost_flush_n: u32,
}

impl FsmLimits {
    /// The starting thresholds: 3 frames to enter fast mode, 350 ms settle dwell, a flush
    /// every 12 bitonal fast updates.
    pub fn default_limits() -> (l: FsmLimits)
        ensures
            l.enter_fast_frames == 3,
            l.settle_ms == 350,
            l.ghost_flush_n == 12,
    {
        FsmLimits { enter_fast_frames: 3, settle_ms: 350, ghost_flush_n: 12 }
    }
}

/// Mathematical view of the state machine.
pub struct FsmView {
    pub panel: PanelKind,
    pub limits: FsmLimits,
    pub mode: Mode,
    pub above_count: u32,
    pub ghost_count: u32,
    pub last_update_ms: Option<u64>,
    /// Union of fast-mode dirty regions since entering fast, for the settle flush.
    pub fast_region: Rect,
}

/// One update, as the state machine sees it.
pub struct UpdateEvent {
    pub now_ms: u64,
    pub region: Rect,
    pub content: ContentClass,
    /// The caller's update-rate average is at or above the enter-fast threshold.
    pub rate_high: bool,
}

/// The state machine's response to one update.
///
/// 1. Hysteresis: in quality mode an at-or-above-threshold update counts toward entering
///    fast mode and a below-threshold one resets the count; reaching `enter_fast_frames`
///    enters fast mode, with a fresh ghost budget and an empty touched region.
/// 2. The waveform follows the (new) mode, the panel and the content class.
/// 3. Ghost budget: in fast mode the update's region joins the touched region; each
///    bitonal fast update spends one unit of the budget, and spending the last requests a
///    flush of the touched region and renews the budget.
pub open spec fn step_update(s: FsmView, e: UpdateEvent) -> (FsmView, Decision) {
    let counted = s.mode == Mode::Quality && e.rate_high;
    let above = if s.mode == Mode::Quality {
        if e.rate_high {
            s.above_count + 1
        } else {
            0
        }
    } else {
        s.above_count as int
    };
    let entered = counted && above >= s.limits.enter_fast_frames;
    let mode = if entered {
        Mode::Fast
    } else {
        s.mode
    };
    let ghost0 = if entered {
        0
    } else {
        s.ghost_count as int
    };
    let region0 = if entered {
        spec_empty_rect()
    } else {
        s.fast_region
    };
    let waveform = spec_select_waveform(s.panel, mode, e.content);
    let region1 = if mode == Mode::Fast {
        spec_union(region0, e.region)
    } else {
        region0
    };
    let spend = mode == Mode::Fast && spec_is_bitonal(waveform);
    let ghost1 = if spend {
        ghost0 + 1
    } else {
        ghost0
    };
    let flush_now = spend && ghost1 >= s.limits.ghost_flush_n;
    let next = FsmView {
        panel: s.panel,
        limits: s.limits,
        mode,
        above_count: above as u32,
        ghost_count: if flush_now {
            0
        } else {
            ghost1 as u32
        },
        last_update_ms: Some(e.now_ms),
        fast_region: region1,
    };
    let decision = Decision {
        region: e.region,
        waveform,
        flush: if flush_now {
            Some(region1)
        } else {
            None
        },
        entered_fast: entered,
    };
    (next, decision)
}

/// Milliseconds since the last update (saturating), or `u64::MAX` if there was none.
pub open spec fn idle_ms(s: FsmView, now_ms: u64) -> int {
    match s.last_update_ms {
        Some(t) => if now_ms >= t {
            now_ms - t
        } else {
            0
        },
        None => u64::MAX as int,
    }
}

/// The state machine's response to an idle tick: outside fast mode, or while the idle time
/// is below the settle dwell, nothing changes; once fast mode has been idle for the dwell,
/// it settles back to quality mode, forgets the touched region and the enter-fast count,
/// and requests a flush of the touched region when it is not empty.
pub open spec fn step_settle(s: FsmView, now_ms: u64) -> (FsmView, Option<Rect>) {
    if s.mode != Mode::Fast || idle_ms(s, now_ms) < s.limits.settle_ms {
        (s, None)
    } else {
        (
            FsmView { mode: Mode::Quality, above_count: 0, fast_region: spec_empty_rect(), ..s },
            if spec_is_empty(s.fast_region) {
                None
            } else {
                Some(s.fast_region)
            },
        )
    }
}

/// The counters stay in range: in quality mode the touched region is empty and the
/// enter-fast count is below its threshold (or zero); the ghost count is below the budget
/// (or zero).
pub open spec fn fsm_inv(s: FsmView) -> bool {
    &&& s.mode == Mode::Quality ==> s.fast_region == spec_empty_rect()
    &&& s.mode == Mode::Quality ==> (s.above_count < s.limits.enter_fast_frames || s.above_count
        == 0)
    &&& s.ghost_count < s.limits.ghost_flush_n || s.ghost_count == 0
}

/// The refresh-mode state machine. One per display surface.
#[derive(Clone, Copy, Debug)]
pub struct RefreshState {
    panel: PanelKind,
    limits: FsmLimits,
    mode: Mode,
    above_count: u32,
    ghost_count: u32,
    last_update_ms: Option<u64>,
    fast_region: Rect,
}

impl View for RefreshState {
    type V = FsmView;

    closed spec fn view(&self) -> FsmView {
        FsmView {
            panel: self.panel,
            limits: self.limits,
            mode: self.mode,
            above_count: self.above_count,
            ghost_count: self.ghost_count,
            last_update_ms: self.last_update_ms,
            fast_region: self.fast_region,
        }
    }
}

impl RefreshState {
    #[verifier::type_invariant]
    spec fn inv(self) -> bool {
        fsm_inv(self@)
    }

    pub fn new(panel: PanelKind, limits: FsmLimits) -> (s: RefreshState)
        ensures
            s@ == (FsmView {
                panel,
                limits,
                mode: Mode::Quality,
                above_count: 0,
                ghost_count: 0,
                last_update_ms: None,
                fast_region: spec_empty_rect(),
            }),
    {
        RefreshState {
            panel,
            limits,
            mode: Mode::Quality,
            above_count: 0,
            ghost_count: 0,
            last_update_ms: None,
            fast_region: Rect::new(0, 0, 0, 0),
        }
    }

    pub fn mode(&self) -> (m: Mode)
        ensures
            m == self@.mode,
    {
        self.mode
    }

    /// Time of the last update fed in, if any.
    pub fn last_update_ms(&self) -> (t: Option<u64>)
        ensures
            t == self@.last_update_ms,
    {
        self.last_update_ms
    }

    /// Whether an update over `region` can be taken: the touched region and `region` have
    /// a representable covering rectangle.
    pub fn can_take(&self, region: &Rect) -> (b: bool)
        ensures
            b == union_fits(self@.fast_region, *region),
    {
        self.fast_region.union_fits(region)
    }

    /// Feed one update. `now_ms` is a monotonic clock in milliseconds; `rate_high` says
    /// whether the caller's update-rate average (already including this update) is at or
    /// above the enter-fast threshold.
    pub fn on_update(&mut self, now_ms: u64, region: Rect, content: ContentClass, rate_high: bool) -> (d: Decision)
        requires
            union_fits(old(self)@.fast_region, region),
        ensures
            (final(self)@, d) == step_update(
                old(self)@,
                UpdateEvent { now_ms, region, content, rate_high },
            ),
    {
        proof {
            use_type_invariant(&*self);
        }
        let s = *self;
        // 1. Hysteresis: enter fast only after N consecutive above-threshold updates.
        let mut mode = s.mode;
        let mut above_count = s.above_count;
        let mut ghost_count = s.ghost_count;
        let mut fast_region = s.fast_region;
        let mut entered_fast = false;
        if s.mode == Mode::Quality {
            if rate_high {
                above_count = s.above_count + 1;
                if above_count >= s.limits.enter_fast_frames {
                    mode = Mode::Fast;
                    entered_fast = true;
                    ghost_count = 0;
                    fast_region = Rect::new(0, 0, 0, 0);
                }
            } else {
                above_count = 0;
            }
        }
        // 2. Pick the waveform for this update.
        let waveform = select_waveform(s.panel, mode, content);
        // 3. Ghost budget: count bitonal fast updates; flush when the budget is hit.
        let mut flush = None;
        if mode == Mode::Fast {
            fast_region = fast_region.union(&region);
            if waveform.is_bitonal() {
                ghost_count = ghost_count + 1;
                if ghost_count >= s.limits.ghost_flush_n {
                    flush = Some(fast_region);
                    ghost_count = 0;
                }
            }
        }
        *self = RefreshState {
            panel: s.panel,
            limits: s.limits,
            mode,
            above_count,
            ghost_count,
            last_update_ms: Some(now_ms),
            fast_region,
        };
        Decision { region, waveform, flush, entered_fast }
    }

    /// Call when no update has occurred for a while (e.g. each idle tick). If in fast mode
    /// and idle for at least `settle_ms`, exit to quality and request a settle flush over
    /// the touched region to restore fidelity and clear ghosting.
    pub fn settle(&mut self, now_ms: u64) -> (r: Option<Rect>)
        ensures
            (final(self)@, r) == step_settle(old(self)@, now_ms),
    {
        proof {
            use_type_invariant(&*self);
        }
        if self.mode != Mode::Fast {
            return None;
        }
        let idle = match self.last_update_ms {
            Some(t) => now_ms.saturating_sub(t),
            None => u64::MAX,
        };
        if idle < self.limits.settle_ms {
            return None;
        }
        let region = self.fast_region;
        *self = RefreshState {
            mode: Mode::Quality,
            above_count: 0,
            fast_region: Rect::new(0, 0, 0, 0),
            ..*self
        };
        if !region.is_empty() {
            Some(region)
        } else {
            None
        }
    }
}

/// The states and decisions of a sequence of updates fed one after the other.
pub open spec fn run_updates(s: FsmView, events: Seq<UpdateEvent>) -> (FsmView, Seq<Decision>)
    decreases events.len(),
{
    if events.len() == 0 {
        (s, Seq::empty())
    } else {
        let (s1, d) = step_update(s, events[0]);
        let (s2, ds) = run_updates(s1, events.drop_first());
        (s2, seq![d] + ds)
    }
}

/// Every update keeps the counters in range.
pub proof fn lemma_step_update_keeps_inv(s: FsmView, e: UpdateEvent)
    requires
        fsm_inv(s),
    ensures
        fsm_inv(step_update(s, e).0),
{
}

/// Feeding a non-empty sequence of updates is feeding the first, then the rest.
proof fn lemma_run_updates_unfold(s: FsmView, events: Seq<UpdateEvent>)
    requires
        events.len() > 0,
    ensures
        run_updates(s, events).0 == run_updates(step_update(s, events[0]).0, events.drop_first()).0,
        run_updates(s, events).1.len() == events.len(),
        run_updates(s, events).1[0] == step_update(s, events[0]).1,
        forall|i: int|
            1 <= i < events.len() ==> #[trigger] run_updates(s, events).1[i] == run_updates(
                step_update(s, events[0]).0,
                events.drop_first(),
            ).1[i - 1],
    decreases events.len(),
{
    let s1 = step_update(s, events[0]).0;
    let rest = events.drop_first();
    if rest.len() > 0 {
        lemma_run_updates_unfold(s1, rest);
    }
    lemma_run_updates_len(s1, rest);
}

/// One decision per update.
proof fn lemma_run_updates_len(s: FsmView, events: Seq<UpdateEvent>)
    ensures
        run_updates(s, events).1.len() == events.len(),
    decreases events.len(),
{
    if events.len() > 0 {
        lemma_run_updates_len(step_update(s, events[0]).0, events.drop_first());
    }
}

/// Once in fast mode, updates alone never leave it: only a settle does.
pub proof fn lemma_fast_stays_fast(s: FsmView, events: Seq<UpdateEvent>)
    requires
        s.mode == Mode::Fast,
    ensures
        run_updates(s, events).0.mode == Mode::Fast,
    decreases events.len(),
{
    if events.len() > 0 {
        lemma_fast_stays_fast(step_update(s, events[0]).0, events.drop_first());
    }
}

/// No accidental fast mode: from quality mode, a burst of updates shorter than the
/// remaining hysteresis count never enters fast mode, whatever the rate.
pub proof fn lemma_short_burst_stays_quality(s: FsmView, events: Seq<UpdateEvent>)
    requires
        fsm_inv(s),
        s.mode == Mode::Quality,
        s.above_count + events.len() < s.limits.enter_fast_frames,
    ensures
        run_updates(s, events).0.mode == Mode::Quality,
        forall|i: int|
            0 <= i < events.len() ==> !(#[trigger] run_updates(s, events).1[i]).entered_fast,
    decreases events.len(),
{
    if events.len() > 0 {
        let s1 = step_update(s, events[0]).0;
        let rest = events.drop_first();
        lemma_short_burst_stays_quality(s1, rest);
        lemma_run_updates_unfold(s, events);
        assert forall|i: int| 0 <= i < events.len() implies !(#[trigger] run_updates(
            s,
            events,
        ).1[i]).entered_fast by {
            if i > 0 {
                assert(run_updates(s, events).1[i] == run_updates(s1, rest).1[i - 1]);
            }
        }
    }
}

/// A sustained high rate enters fast mode: from quality mode, enough consecutive
/// at-or-above-threshold updates to complete the hysteresis count end in fast mode.
pub proof fn lemma_sustained_rate_enters_fast(s: FsmView, events: Seq<UpdateEvent>)
    requires
        fsm_inv(s),
        s.above_count + events.len() >= s.limits.enter_fast_frames,
        events.len() > 0 || s.mode == Mode::Fast,
        forall|i: int| 0 <= i < events.len() ==> (#[trigger] events[i]).rate_high,
    ensures
        run_updates(s, events).0.mode == Mode::Fast,
    decreases events.len(),
{
    if events.len() > 0 {
        let s1 = step_update(s, events[0]).0;
        assert(events[0].rate_high);
        lemma_step_update_keeps_inv(s, events[0]);
        let rest = events.drop_first();
        lemma_run_updates_unfold(s, events);
        if s1.mode == Mode::Fast {
            lemma_fast_stays_fast(s1, rest);
        } else {
            assert(s1.above_count == s.above_count + 1);
            assert forall|i: int| 0 <= i < rest.len() implies (#[trigger] rest[i]).rate_high by {
                assert(rest[i] == events[i + 1]);
            }
            lemma_sustained_rate_enters_fast(s1, rest);
        }
    }
}

/// Text-aware suppression: on a mono panel, redrawing only text never uses the A2
/// animation mode; in fast mode it uses the bitonal DU mode instead.
pub proof fn lemma_text_never_a2(mode: Mode)
    ensures
        spec_select_waveform(PanelKind::Mono, mode, ContentClass::Text) != Waveform::Mono(
            WaveformMode::A2,
        ),
        spec_select_waveform(PanelKind::Mono, Mode::Fast, ContentClass::Text) == Waveform::Mono(
            WaveformMode::Du,
        ),
{
}

/// On a colour panel, fast mode never drives a colour waveform: it always takes the mono
/// partial path.
pub proof fn lemma_color_motion_stays_mono(content: ContentClass)
    ensures
        spec_select_waveform(PanelKind::Color, Mode::Fast, content) == Waveform::Color(
            ColorClass::MonoPartial,
        ),
{
}

/// How the waveform follows the panel, the mode and the content: each panel is driven in
/// its own family; on a colour panel a colour class other than the mono partial path is
/// used only for colour content at rest, which gets standard colour, and text and grey
/// content take the same mono partial path at rest as in motion; on a mono panel quality
/// mode never uses a bitonal waveform and fast mode always does.
pub proof fn lemma_waveform_choice(mode: Mode, content: ContentClass)
    ensures
        spec_select_waveform(PanelKind::Mono, mode, content) is Mono,
        spec_select_waveform(PanelKind::Color, mode, content) is Color,
        spec_select_waveform(PanelKind::Color, mode, content) != Waveform::Color(
            ColorClass::MonoPartial,
        ) ==> content == ContentClass::Color && mode == Mode::Quality,
        content != ContentClass::Color ==> spec_select_waveform(
            PanelKind::Color,
            Mode::Quality,
            content,
        ) == spec_select_waveform(PanelKind::Color, Mode::Fast, content),
        spec_select_waveform(PanelKind::Color, Mode::Quality, ContentClass::Color)
            == Waveform::Color(ColorClass::StandardColor),
        !spec_is_bitonal(spec_select_waveform(PanelKind::Mono, Mode::Quality, content)),
        spec_is_bitonal(spec_select_waveform(PanelKind::Mono, Mode::Fast, content)),
        content != ContentClass::Text ==> spec_select_waveform(PanelKind::Mono, Mode::Fast, content)
            == Waveform::Mono(WaveformMode::A2),
{
}

/// Every fast-mode waveform is bitonal, so every fast-mode update spends ghost budget.
pub proof fn lemma_fast_is_bitonal(panel: PanelKind, content: ContentClass)
    ensures
        spec_is_bitonal(spec_select_waveform(panel, Mode::Fast, content)),
{
}

/// Quality mode never requests a ghost flush.
pub proof fn lemma_quality_never_flushes(s: FsmView, e: UpdateEvent)
    requires
        step_update(s, e).0.mode == Mode::Quality,
    ensures
        step_update(s, e).1.flush is None,
{
}

/// Ghost budget: in fast mode with a budget of `n > 0` updates, the update that spends the
/// last unit — the `(n - ghost_count)`-th from now — requests a flush.
pub proof fn lemma_ghost_flush_after_budget(s: FsmView, events: Seq<UpdateEvent>)
    requires
        fsm_inv(s),
        s.mode == Mode::Fast,
        s.limits.ghost_flush_n > 0,
        events.len() == s.limits.ghost_flush_n - s.ghost_count,
    ensures
        run_updates(s, events).1[events.len() - 1].flush is Some,
    decreases events.len(),
{
    let (s1, d) = step_update(s, events[0]);
    lemma_fast_is_bitonal(s.panel, events[0].content);
    lemma_run_updates_unfold(s, events);
    if events.len() > 1 {
        let rest = events.drop_first();
        lemma_ghost_flush_after_budget(s1, rest);
        assert(run_updates(s, events).1[events.len() - 1] == run_updates(s1, rest).1[rest.len()
            - 1]);
    }
}

/// One update in terms of the decision: the decision is for the update's region, it
/// reports entering fast mode exactly when quality mode turned into fast mode, fast mode
/// is never left by an update, and a flush covers the touched region as it now stands.
pub proof fn lemma_update_transition(s: FsmView, e: UpdateEvent)
    ensures
        step_update(s, e).1.region == e.region,
        step_update(s, e).1.entered_fast == (s.mode == Mode::Quality && step_update(s, e).0.mode
            == Mode::Fast),
        s.mode == Mode::Fast ==> step_update(s, e).0.mode == Mode::Fast,
        step_update(s, e).1.entered_fast ==> step_update(s, e).0.fast_region == e.region,
        step_update(s, e).1.flush matches Some(r) ==> r == step_update(s, e).0.fast_region,
{
}

/// The region touched by a run of updates: `r` grown by each update's region in turn.
pub open spec fn regions_union(r: Rect, events: Seq<UpdateEvent>) -> Rect
    decreases events.len(),
{
    if events.len() == 0 {
        r
    } else {
        regions_union(spec_union(r, events[0].region), events.drop_first())
    }
}

/// In fast mode the touched region grows by every update's region: after a run of
/// updates it is the union of what it was and all their regions.
pub proof fn lemma_touched_region_accumulates(s: FsmView, events: Seq<UpdateEvent>)
    requires
        s.mode == Mode::Fast,
    ensures
        run_updates(s, events).0.fast_region == regions_union(s.fast_region, events),
    decreases events.len(),
{
    if events.len() > 0 {
        lemma_run_updates_unfold(s, events);
        lemma_touched_region_accumulates(step_update(s, events[0]).0, events.drop_first());
    }
}

/// The ghost budget cycles: in fast mode with a budget of `n > 0`, every update spends one
/// unit, the count after `k` updates is `(ghost_count + k) % n`, and the `j`-th update
/// (from 0) requests a flush exactly when `ghost_count + j + 1` is a multiple of `n`.
pub proof fn lemma_ghost_budget_cycles(s: FsmView, events: Seq<UpdateEvent>)
    requires
        fsm_inv(s),
        s.mode == Mode::Fast,
        s.limits.ghost_flush_n > 0,
    ensures
        run_updates(s, events).0.ghost_count == (s.ghost_count + events.len()) % (
        s.limits.ghost_flush_n as int),
        forall|j: int|
            0 <= j < events.len() ==> ((#[trigger] run_updates(s, events).1[j]).flush is Some <==> (
            s.ghost_count + j + 1) % (s.limits.ghost_flush_n as int) == 0),
    decreases events.len(),
{
    let n = s.limits.ghost_flush_n as int;
    let g = s.ghost_count as int;
    if events.len() == 0 {
        assert(g % n == g) by {
            vstd::arithmetic::div_mod::lemma_small_mod(g as nat, n as nat);
        }
    } else {
        let (s1, d) = step_update(s, events[0]);
        let rest = events.drop_first();
        lemma_fast_is_bitonal(s.panel, events[0].content);
        lemma_step_update_keeps_inv(s, events[0]);
        lemma_run_updates_unfold(s, events);
        lemma_ghost_budget_cycles(s1, rest);
        let g1 = s1.ghost_count as int;
        assert(d.flush is Some <==> g + 1 == n);
        assert((g + 1) % n == 0 <==> g + 1 == n) by {
            if g + 1 < n {
                vstd::arithmetic::div_mod::lemma_small_mod((g + 1) as nat, n as nat);
            } else {
                vstd::arithmetic::div_mod::lemma_mod_self_0(n);
            }
        }
        assert forall|k: int| k >= 0 implies #[trigger] ((g1 + k) % n) == (g + 1 + k) % n by {
            if g + 1 == n {
                vstd::arithmetic::div_mod::lemma_mod_add_multiples_vanish(k, n);
            }
        }
        assert((g1 + rest.len()) % n == (g + events.len()) % n);
        assert forall|j: int| 0 <= j < events.len() implies ((#[trigger] run_updates(
            s,
            events,
        ).1[j]).flush is Some <==> (g + j + 1) % n == 0) by {
            if j > 0 {
                assert(run_updates(s, events).1[j] == run_updates(s1, rest).1[j - 1]);
                assert((g1 + j) % n == (g + 1 + j) % n);
                assert(g1 + (j - 1) + 1 == g1 + j);
            }
        }
    }
}

/// No settle before the dwell: while the idle time since the last update is below
/// `settle_ms`, an idle tick changes nothing and flushes nothing.
pub proof fn lemma_no_settle_before_dwell(s: FsmView, now_ms: u64)
    requires
        idle_ms(s, now_ms) < s.limits.settle_ms,
    ensures
        step_settle(s, now_ms) == (s, None::<Rect>),
{
}

/// Settling from fast mode once the dwell has elapsed returns to quality mode with an
/// empty touched region and flushes the touched region when it is not empty; a second
/// idle tick then does nothing.
pub proof fn lemma_settle_exits_fast(s: FsmView, now_ms: u64, later_ms: u64)
    requires
        s.mode == Mode::Fast,
        idle_ms(s, now_ms) >= s.limits.settle_ms,
    ensures
        step_settle(s, now_ms).0.mode == Mode::Quality,
        step_settle(s, now_ms).0.fast_region == spec_empty_rect(),
        step_settle(s, now_ms).1 == if spec_is_empty(s.fast_region) {
            None
        } else {
            Some(s.fast_region)
        },
        step_settle(step_settle(s, now_ms).0, later_ms) == (step_settle(s, now_ms).0, None::<Rect>),
{
}

} // verus!
