use rmbrowser::overlay::{logical_size, AnchorMode};
use rmbrowser::types::Orientation;

#[test]
fn logical_axes_swap_in_landscape() {
    assert_eq!(logical_size((1404, 1872), Orientation::Portrait), (1404, 1872));
    assert_eq!(logical_size((1404, 1872), Orientation::LandscapeRight), (1872, 1404));
}

#[test]
fn flipped_orientations_follow_their_axis() {
    assert_eq!(logical_size((1404, 1872), Orientation::PortraitFlipped), (1404, 1872));
    assert_eq!(logical_size((1404, 1872), Orientation::LandscapeLeft), (1872, 1404));
}

#[test]
fn logical_size_twice_is_physical() {
    for o in [
        Orientation::Portrait,
        Orientation::LandscapeRight,
        Orientation::PortraitFlipped,
        Orientation::LandscapeLeft,
    ] {
        assert_eq!(logical_size(logical_size((1620, 2160), o), o), (1620, 2160));
    }
}

#[test]
fn anchor_modes_are_distinct() {
    assert_ne!(AnchorMode::RotateWithScreen, AnchorMode::FixedScreenPercent);
}
