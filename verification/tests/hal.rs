use rmbrowser::display::{ColorClass, Waveform, WaveformMode};
use rmbrowser::hal::{
    map_waveform, refresh_params, to_mxcfb_rect, EpdcDither, EpdcWaveform, MxcfbRect, RefreshParams,
    UpdateMarker, UpdateRequest,
};
use rmbrowser::types::Rect;
use rmbrowser::hal::EpdcDither::{Exp1, Passthrough};

#[test]
fn negative_coordinates_clamp_to_zero() {
    assert_eq!(
        to_mxcfb_rect(Rect::new(-5, -7, 10, 20)),
        MxcfbRect { top: 0, left: 0, width: 10, height: 20 }
    );
    assert_eq!(
        to_mxcfb_rect(Rect::new(3, 4, 10, 20)),
        MxcfbRect { top: 4, left: 3, width: 10, height: 20 }
    );
}

#[test]
fn waveform_table() {
    assert_eq!(map_waveform(Waveform::Mono(WaveformMode::Init)), (EpdcWaveform::Init, Passthrough, false));
    assert_eq!(map_waveform(Waveform::Mono(WaveformMode::Du)), (EpdcWaveform::Du, Exp1, true));
    assert_eq!(map_waveform(Waveform::Mono(WaveformMode::A2)), (EpdcWaveform::Du, Exp1, true));
    assert_eq!(map_waveform(Waveform::Mono(WaveformMode::Gc16)), (EpdcWaveform::Gc16, Passthrough, false));
    assert_eq!(map_waveform(Waveform::Mono(WaveformMode::Gl16)), (EpdcWaveform::Gc16Fast, Passthrough, false));
    assert_eq!(map_waveform(Waveform::Mono(WaveformMode::Du4)), (EpdcWaveform::Gc16Fast, Passthrough, false));
    assert_eq!(map_waveform(Waveform::Mono(WaveformMode::Glr16)), (EpdcWaveform::Glr16, Passthrough, false));
    assert_eq!(
        map_waveform(Waveform::Color(ColorClass::StandardColor)),
        (EpdcWaveform::Gc16, Passthrough, false)
    );
}

#[test]
fn refresh_params_of_request() {
    let req = UpdateRequest { region: Rect::new(-1, 8, 30, 40), waveform: Waveform::Mono(WaveformMode::A2), full: true };
    assert_eq!(
        refresh_params(&req),
        RefreshParams {
            rect: MxcfbRect { top: 8, left: 0, width: 30, height: 40 },
            waveform: EpdcWaveform::Du,
            dither: EpdcDither::Exp1,
            drawing_quant: true,
            full: true,
        }
    );
    assert_eq!(UpdateMarker(7), UpdateMarker(7));
}
