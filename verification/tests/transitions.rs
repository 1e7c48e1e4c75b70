use tilegrid::color::{Rgba, lerp_channel, lerp_color};
use tilegrid::transition::{TransitionOverlay, TransitionState};

#[test]
fn transition_walks_through_its_phases() {
    let mut overlay = TransitionOverlay::new(1000, 500, 1000);
    // Still at the very start of the fade.
    assert_eq!(overlay.update(0), (TransitionState::FadeIn, 0));
    // Part way through the first phase the opacity has climbed.
    assert_eq!(overlay.update(600), (TransitionState::FadeIn, 600));
    // Holding at full opacity.
    assert_eq!(overlay.update(600), (TransitionState::Hold, 1000));
    // Fading back in: 700 ms of the total 2500 remain.
    assert_eq!(overlay.update(600), (TransitionState::FadeOut, 700));
    // Past all three phases the transition is complete.
    assert_eq!(overlay.update(800), (TransitionState::Complete, 0));
    assert_eq!(overlay.update(100000), (TransitionState::Complete, 0));
}

#[test]
fn transition_holds_between_the_fades() {
    let mut overlay = TransitionOverlay::new(100, 300, 100);
    assert_eq!(overlay.update(100), (TransitionState::FadeIn, 1000));
    assert_eq!(overlay.update(150), (TransitionState::Hold, 1000));
    assert_eq!(overlay.update(150), (TransitionState::Hold, 1000));
    assert_eq!(overlay.update(50), (TransitionState::FadeOut, 500));
}

#[test]
fn channel_interpolation_never_overshoots() {
    // A full step lands exactly on the target.
    assert_eq!(lerp_channel(0, 255, 1000), 255);
    assert_eq!(lerp_channel(255, 0, 1000), 0);
    // A partial step moves toward it, rounding toward the start.
    assert_eq!(lerp_channel(0, 255, 400), 102);
    assert_eq!(lerp_channel(255, 0, 400), 153);
    assert_eq!(lerp_channel(7, 7, 900), 7);
}

#[test]
fn color_interpolation_moves_each_channel() {
    let from = Rgba::new(0, 100, 200, 40);
    let to = Rgba::new(100, 0, 250, 240);
    let half = lerp_color(from, to, 500);
    assert_eq!(half, Rgba::new(50, 50, 225, 140));
}
