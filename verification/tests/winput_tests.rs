use inkwordle::winput::{
    InputEvent, WinInput, INPUT_PEN_PRESS, INPUT_PEN_RELEASE, INPUT_PEN_UPDATE, INPUT_TOUCH_PRESS,
    INPUT_TOUCH_RELEASE, INPUT_TOUCH_UPDATE,
};
use inkwordle::pen::Tool;

fn ev(t: i32, dev: i32, x: i32, y: i32, d: i32) -> InputEvent {
    InputEvent { input_type: t, dev_id: dev, x, y, d }
}

#[test]
fn pen_press_draws_and_passes_pressure_gate() {
    let mut w = WinInput::new();
    let (s, tap) = w.translate(&[ev(INPUT_PEN_PRESS, 0, 100, 200, 50)]);
    assert_eq!(s.len(), 1);
    assert!(s[0].touching);
    assert!(s[0].pressure > 40, "pressure must clear the game's > 40 gate");
    assert_eq!((s[0].x, s[0].y), (100, 200));
    assert!(tap.is_none());
}

#[test]
fn light_pen_press_still_draws() {
    // d == 0 (pressure sensor floor) must still produce a drawing sample.
    let mut w = WinInput::new();
    let (s, _) = w.translate(&[ev(INPUT_PEN_UPDATE, 0, 5, 5, 0)]);
    assert!(s[0].touching && s[0].pressure > 40);
}

#[test]
fn pen_release_lifts() {
    let mut w = WinInput::new();
    let (s, _) = w.translate(&[ev(INPUT_PEN_RELEASE, 0, 1, 2, 0)]);
    assert_eq!(s.len(), 1);
    assert!(!s[0].touching);
}

#[test]
fn short_touch_is_a_tap() {
    let mut w = WinInput::new();
    w.translate(&[ev(INPUT_TOUCH_PRESS, 1, 50, 60, 0)]);
    let (_, tap) = w.translate(&[ev(INPUT_TOUCH_RELEASE, 1, 52, 61, 0)]);
    assert_eq!(tap, Some((52, 61)));
}

#[test]
fn dragged_touch_is_not_a_tap() {
    let mut w = WinInput::new();
    w.translate(&[ev(INPUT_TOUCH_PRESS, 1, 50, 60, 0)]);
    w.translate(&[ev(INPUT_TOUCH_UPDATE, 1, 300, 60, 0)]);
    let (_, tap) = w.translate(&[ev(INPUT_TOUCH_RELEASE, 1, 300, 60, 0)]);
    assert!(tap.is_none(), "a drag must not fire a control tap");
}

#[test]
fn press_release_in_one_batch_taps() {
    let mut w = WinInput::new();
    let (_, tap) = w.translate(&[
        ev(INPUT_TOUCH_PRESS, 2, 800, 900, 0),
        ev(INPUT_TOUCH_RELEASE, 2, 801, 900, 0),
    ]);
    assert_eq!(tap, Some((801, 900)));
}

#[test]
fn pen_pressure_scales_and_clamps() {
    let mut w = WinInput::new();
    let (s, _) = w.translate(&[
        ev(INPUT_PEN_PRESS, 0, 1, 1, 100),
        ev(INPUT_PEN_UPDATE, 0, 1, 1, 250),
        ev(INPUT_PEN_UPDATE, 0, 1, 1, -7),
        ev(INPUT_PEN_UPDATE, 0, 1, 1, 25),
    ]);
    assert_eq!(s.iter().map(|p| p.pressure).collect::<Vec<_>>(), vec![4080, 4080, 80, 1080]);
    assert!(s.iter().all(|p| p.tool == Tool::Pen));
}

#[test]
fn other_finger_release_is_not_a_tap() {
    let mut w = WinInput::new();
    let (_, tap) = w.translate(&[ev(INPUT_TOUCH_PRESS, 1, 10, 10, 0), ev(INPUT_TOUCH_RELEASE, 2, 10, 10, 0)]);
    assert!(tap.is_none());
    // the release cleared the tracked contact: a later release taps nothing
    let (_, tap) = w.translate(&[ev(INPUT_TOUCH_RELEASE, 1, 10, 10, 0)]);
    assert!(tap.is_none());
}

#[test]
fn small_wiggle_still_taps_and_last_tap_wins() {
    let mut w = WinInput::new();
    let (s, tap) = w.translate(&[
        ev(INPUT_TOUCH_PRESS, 1, 100, 100, 0),
        ev(INPUT_TOUCH_UPDATE, 1, 160, 40, 0),
        ev(INPUT_TOUCH_RELEASE, 1, 160, 40, 0),
        ev(INPUT_TOUCH_PRESS, 1, 500, 500, 0),
        ev(INPUT_TOUCH_RELEASE, 1, 505, 495, 0),
        ev(0x99, 1, 0, 0, 0),
    ]);
    assert!(s.is_empty());
    assert_eq!(tap, Some((505, 495)));
}

#[test]
fn extreme_coordinates_are_handled() {
    let mut w = WinInput::new();
    // a release with no tracked contact is no tap, wherever it is
    assert_eq!(w.translate(&[ev(INPUT_TOUCH_RELEASE, 1, i32::MAX, i32::MIN, 0)]).1, None);
    // a drag across the whole coordinate range is no tap
    let (_, tap) = w.translate(&[
        ev(INPUT_TOUCH_PRESS, 1, i32::MIN, 0, 0),
        ev(INPUT_TOUCH_UPDATE, 1, i32::MAX, 0, 0),
        ev(INPUT_TOUCH_RELEASE, 1, i32::MAX, 0, 0),
    ]);
    assert_eq!(tap, None);
    // a tap at the far corner
    let (_, tap) = w.translate(&[ev(INPUT_TOUCH_PRESS, 2, i32::MAX, i32::MAX, 0), ev(INPUT_TOUCH_RELEASE, 2, i32::MAX, i32::MAX, 0)]);
    assert_eq!(tap, Some((i32::MAX, i32::MAX)));
    let (s, _) = w.translate(&[ev(INPUT_PEN_PRESS, 0, i32::MIN, i32::MAX, 100)]);
    assert_eq!((s[0].x, s[0].y, s[0].pressure), (i32::MIN, i32::MAX, 4080));
}

#[test]
fn tap_spans_several_batches() {
    let mut w = WinInput::new();
    // Press in one batch, a small move in the next, the lift in a third.
    assert_eq!(w.translate(&[ev(INPUT_TOUCH_PRESS, 1, 100, 100, 0)]).1, None);
    assert_eq!(w.translate(&[ev(INPUT_TOUCH_UPDATE, 1, 160, 40, 0)]).1, None);
    assert_eq!(w.translate(&[ev(INPUT_TOUCH_RELEASE, 1, 150, 50, 0)]).1, Some((150, 50)));
    // A far move of the same finger in an earlier batch spoils the lift.
    w.translate(&[ev(INPUT_TOUCH_PRESS, 1, 100, 100, 0)]);
    w.translate(&[ev(INPUT_TOUCH_UPDATE, 1, 161, 100, 0)]);
    assert_eq!(w.translate(&[ev(INPUT_TOUCH_RELEASE, 1, 100, 100, 0)]).1, None);
    // A far move of another finger does not; the last of two taps in a batch wins.
    w.translate(&[ev(INPUT_TOUCH_PRESS, 2, 10, 10, 0), ev(INPUT_TOUCH_UPDATE, 3, 500, 500, 0)]);
    let (_, tap) = w.translate(&[
        ev(INPUT_TOUCH_RELEASE, 2, 11, 12, 0),
        ev(INPUT_TOUCH_PRESS, 2, 20, 20, 0),
        ev(INPUT_TOUCH_RELEASE, 2, 21, 22, 0),
    ]);
    assert_eq!(tap, Some((21, 22)));
    // A release of a finger other than the one last pressed is no tap.
    w.translate(&[ev(INPUT_TOUCH_PRESS, 4, 10, 10, 0)]);
    assert_eq!(w.translate(&[ev(INPUT_TOUCH_RELEASE, 5, 10, 10, 0)]).1, None);
}
