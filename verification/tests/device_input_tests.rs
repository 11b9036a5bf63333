use inkwordle::clock::{seed, seed_of};
use inkwordle::evdev::{decode, key_pressed, RawEvent, EV_ABS, EV_KEY, EV_SYN, KEY_POWER, SYN_DROPPED, SYN_REPORT};
use inkwordle::pen::{
    PenDecoder, Tool, ABS_PRESSURE, ABS_X, ABS_Y, BTN_TOOL_PEN, BTN_TOOL_RUBBER, BTN_TOUCH, DIGI_MAX_X, DIGI_MAX_Y,
};
use inkwordle::touch::{
    Gesture, TouchTracker, ABS_MT_POSITION_X, ABS_MT_POSITION_Y, ABS_MT_SLOT, ABS_MT_TRACKING_ID, STUCK_TIMEOUT_NS,
};

fn ev(etype: u16, code: u16, value: i32) -> RawEvent {
    RawEvent { etype, code, value }
}

fn record(etype: u16, code: u16, value: i32) -> Vec<u8> {
    let mut r = vec![0xaau8; 16];
    r.extend_from_slice(&etype.to_le_bytes());
    r.extend_from_slice(&code.to_le_bytes());
    r.extend_from_slice(&value.to_le_bytes());
    r
}

fn syn() -> RawEvent {
    ev(EV_SYN, SYN_REPORT, 0)
}

/// One finger down in slot `slot`, at `(x0, y0)`, moved to `(x1, y1)`, lifted.
fn one_finger(slot: i32, x0: i32, y0: i32, x1: i32, y1: i32) -> Vec<RawEvent> {
    vec![
        ev(EV_ABS, ABS_MT_SLOT, slot),
        ev(EV_ABS, ABS_MT_TRACKING_ID, 7),
        ev(EV_ABS, ABS_MT_POSITION_X, x0),
        ev(EV_ABS, ABS_MT_POSITION_Y, y0),
        syn(),
        ev(EV_ABS, ABS_MT_POSITION_X, x1),
        ev(EV_ABS, ABS_MT_POSITION_Y, y1),
        syn(),
        ev(EV_ABS, ABS_MT_TRACKING_ID, -1),
        syn(),
    ]
}

#[test]
fn decode_splits_records_and_drops_partial_tail() {
    let mut bytes = record(EV_ABS, ABS_MT_POSITION_X, 1234);
    bytes.extend(record(EV_ABS, ABS_MT_TRACKING_ID, -1));
    bytes.extend(record(EV_KEY, BTN_TOUCH, 0x0102_0304));
    bytes.extend_from_slice(&[1, 2, 3]);
    let evs = decode(&bytes);
    assert_eq!(
        evs,
        vec![
            ev(EV_ABS, ABS_MT_POSITION_X, 1234),
            ev(EV_ABS, ABS_MT_TRACKING_ID, -1),
            ev(EV_KEY, BTN_TOUCH, 0x0102_0304),
        ]
    );
    assert!(decode(&[0u8; 23]).is_empty());
}

#[test]
fn touch_short_tap_maps_to_screen_pixels() {
    let mut t = TouchTracker::new(2064, 2832);
    let g = t.feed(&one_finger(0, 1032, 1416, 1040, 1410), Gesture::Nothing);
    // last position scaled: 1040 * 1620 / 2064 = 816, 1410 * 2160 / 2832 = 1075
    assert_eq!(g, Gesture::Tap(816, 1075));
    assert!(!t.any_down());
}

#[test]
fn touch_horizontal_drags_are_page_gestures() {
    let mut t = TouchTracker::new(2064, 2832);
    assert_eq!(t.feed(&one_finger(0, 1500, 1000, 300, 1000), Gesture::Nothing), Gesture::NewPage);
    assert_eq!(t.feed(&one_finger(0, 1500, 1000, 1150, 1000), Gesture::Nothing), Gesture::NextPage);
    assert_eq!(t.feed(&one_finger(0, 500, 1000, 800, 1000), Gesture::Nothing), Gesture::PrevPage);
    // more than a tap, less than a swipe: nothing
    assert_eq!(t.feed(&one_finger(0, 500, 1000, 650, 1000), Gesture::Nothing), Gesture::Nothing);
    // vertical travel beyond the tap radius: not a tap
    assert_eq!(t.feed(&one_finger(0, 500, 1000, 500, 1100), Gesture::Nothing), Gesture::Nothing);
}

#[test]
fn touch_palm_is_rejected() {
    let mut t = TouchTracker::new(2064, 2832);
    let evs = vec![
        ev(EV_ABS, ABS_MT_SLOT, 0),
        ev(EV_ABS, ABS_MT_TRACKING_ID, 1),
        ev(EV_ABS, ABS_MT_POSITION_X, 100),
        ev(EV_ABS, ABS_MT_POSITION_Y, 100),
        ev(EV_ABS, ABS_MT_SLOT, 1),
        ev(EV_ABS, ABS_MT_TRACKING_ID, 2),
        ev(EV_ABS, ABS_MT_POSITION_X, 400),
        ev(EV_ABS, ABS_MT_POSITION_Y, 400),
        syn(),
        ev(EV_ABS, ABS_MT_TRACKING_ID, -1),
        ev(EV_ABS, ABS_MT_SLOT, 0),
        ev(EV_ABS, ABS_MT_TRACKING_ID, -1),
        syn(),
    ];
    assert_eq!(t.feed(&evs, Gesture::Nothing), Gesture::Nothing);
    // once the surface is clear, a clean tap counts again
    assert_eq!(t.feed(&one_finger(0, 1032, 1416, 1032, 1416), Gesture::Nothing), Gesture::Tap(810, 1080));
}

#[test]
fn touch_dropped_events_forget_contacts() {
    let mut t = TouchTracker::new(2064, 2832);
    let down = vec![
        ev(EV_ABS, ABS_MT_SLOT, 0),
        ev(EV_ABS, ABS_MT_TRACKING_ID, 3),
        ev(EV_ABS, ABS_MT_POSITION_X, 100),
        ev(EV_ABS, ABS_MT_POSITION_Y, 100),
        syn(),
    ];
    assert_eq!(t.feed(&down, Gesture::Nothing), Gesture::Nothing);
    assert!(t.any_down());
    let rest = vec![ev(EV_SYN, SYN_DROPPED, 0), ev(EV_ABS, ABS_MT_TRACKING_ID, -1), syn()];
    assert_eq!(t.feed(&rest, Gesture::Nothing), Gesture::Nothing);
    assert!(!t.any_down());
    t.feed(&down, Gesture::Nothing);
    t.reset_mt();
    assert!(!t.any_down());
}

#[test]
fn touch_watchdog_clears_only_a_stuck_contact() {
    let mut t = TouchTracker::new(2064, 2832);
    // Nothing down: no reset, however long the silence.
    assert!(!t.expire_stuck(u64::MAX));
    let down = vec![
        ev(EV_ABS, ABS_MT_SLOT, 0),
        ev(EV_ABS, ABS_MT_TRACKING_ID, 3),
        ev(EV_ABS, ABS_MT_POSITION_X, 100),
        ev(EV_ABS, ABS_MT_POSITION_Y, 100),
        syn(),
    ];
    t.feed(&down, Gesture::Nothing);
    // Exactly two seconds is not yet stuck.
    assert!(!t.expire_stuck(STUCK_TIMEOUT_NS));
    assert!(t.any_down());
    assert!(t.expire_stuck(STUCK_TIMEOUT_NS + 1));
    assert!(!t.any_down());
}

#[test]
fn touch_out_of_range_slot_is_ignored() {
    let mut t = TouchTracker::new(2064, 2832);
    let evs = vec![
        ev(EV_ABS, ABS_MT_SLOT, 20),
        ev(EV_ABS, ABS_MT_TRACKING_ID, 9),
        ev(EV_ABS, ABS_MT_POSITION_X, 100),
        syn(),
    ];
    t.feed(&evs, Gesture::Nothing);
    assert!(!t.any_down());
}

#[test]
fn touch_batches_keep_gesture_so_far() {
    let mut t = TouchTracker::new(2064, 2832);
    let all = one_finger(0, 1032, 1416, 1032, 1416);
    let (a, b) = all.split_at(9);
    let g = t.feed(a, Gesture::Nothing);
    assert_eq!(g, Gesture::Tap(810, 1080));
    assert_eq!(t.feed(b, g), Gesture::Tap(810, 1080));
    assert_eq!(t.feed(&[], Gesture::PrevPage), Gesture::PrevPage);
}

#[test]
fn pen_frame_reports_scaled_sample() {
    let mut d = PenDecoder::new(DIGI_MAX_X, DIGI_MAX_Y);
    let s = d.feed(&[
        ev(EV_KEY, BTN_TOOL_PEN, 1),
        ev(EV_ABS, ABS_X, 5590),
        ev(EV_ABS, ABS_Y, 7670),
        ev(EV_ABS, ABS_PRESSURE, 2000),
        ev(EV_KEY, BTN_TOUCH, 1),
        syn(),
        syn(),
    ]);
    assert_eq!(s.len(), 1);
    // 5590 * 1619 / 11180 = 809, 7670 * 2159 / 15340 = 1079
    assert_eq!((s[0].x, s[0].y, s[0].pressure, s[0].tool, s[0].touching), (809, 1079, 2000, Tool::Pen, true));
}

#[test]
fn pen_coordinates_clamp_to_screen() {
    let mut d = PenDecoder::new(DIGI_MAX_X, DIGI_MAX_Y);
    let s = d.feed(&[ev(EV_ABS, ABS_X, 30000), ev(EV_ABS, ABS_Y, -40), syn()]);
    assert_eq!((s[0].x, s[0].y), (1619, 0));
    let mut zero = PenDecoder::new(0, -5);
    let s = zero.feed(&[ev(EV_ABS, ABS_X, 2), ev(EV_ABS, ABS_Y, 1), syn()]);
    assert_eq!((s[0].x, s[0].y), (1619, 2159));
}

#[test]
fn pen_eraser_tip_and_release() {
    let mut d = PenDecoder::new(DIGI_MAX_X, DIGI_MAX_Y);
    let s = d.feed(&[
        ev(EV_KEY, BTN_TOOL_RUBBER, 1),
        ev(EV_KEY, BTN_TOUCH, 1),
        syn(),
        ev(EV_KEY, BTN_TOOL_PEN, 0),
        ev(EV_KEY, BTN_TOUCH, 0),
        syn(),
        ev(EV_KEY, BTN_TOOL_RUBBER, 0),
        ev(EV_ABS, ABS_X, 10),
        syn(),
    ]);
    assert_eq!(s.len(), 3);
    assert_eq!((s[0].tool, s[0].touching), (Tool::Eraser, true));
    assert_eq!((s[1].tool, s[1].touching), (Tool::Eraser, false));
    assert_eq!(s[2].tool, Tool::Pen);
}

#[test]
fn pen_dropped_events_lift_without_phantom_sample() {
    let mut d = PenDecoder::new(DIGI_MAX_X, DIGI_MAX_Y);
    let s = d.feed(&[
        ev(EV_KEY, BTN_TOUCH, 1),
        ev(EV_ABS, ABS_PRESSURE, 900),
        ev(EV_SYN, SYN_DROPPED, 0),
        syn(),
        ev(EV_ABS, ABS_X, 100),
        syn(),
    ]);
    assert_eq!(s.len(), 1);
    assert!(!s[0].touching);
    assert_eq!(s[0].pressure, 0);
}

#[test]
fn power_key_press_is_seen_in_a_batch() {
    assert!(key_pressed(&[syn(), ev(EV_KEY, KEY_POWER, 1), syn()], KEY_POWER));
    assert!(!key_pressed(&[ev(EV_KEY, KEY_POWER, 0), ev(EV_KEY, BTN_TOUCH, 1)], KEY_POWER));
    assert!(!key_pressed(&[], KEY_POWER));
}

#[test]
fn clock_seed_truncates_or_falls_back() {
    assert_eq!(seed_of(Some(5)), 5);
    assert_eq!(seed_of(Some((7u128 << 64) | 9)), 9);
    assert_eq!(seed_of(None), 0x9e3779b9);
    assert_ne!(seed(), 0x9e3779b9);
}

#[test]
fn pen_batches_split_anywhere_decode_the_same() {
    let evs = vec![
        ev(EV_ABS, ABS_X, 100),
        ev(EV_ABS, ABS_Y, 200),
        ev(EV_KEY, BTN_TOUCH, 1),
        syn(),
        ev(EV_ABS, ABS_X, 300),
        syn(),
        ev(EV_KEY, BTN_TOUCH, 0),
        syn(),
    ];
    let mut whole = PenDecoder::new(DIGI_MAX_X, DIGI_MAX_Y);
    let all = whole.feed(&evs);
    assert_eq!(all.len(), 3);
    for cut in 0..=evs.len() {
        let mut d = PenDecoder::new(DIGI_MAX_X, DIGI_MAX_Y);
        let mut got = d.feed(&evs[..cut]);
        got.extend(d.feed(&evs[cut..]));
        let key = |v: &Vec<inkwordle::pen::PenSample>| {
            v.iter().map(|s| (s.x, s.y, s.pressure, s.tool, s.touching)).collect::<Vec<_>>()
        };
        assert_eq!(key(&got), key(&all), "split at {cut}");
    }
}

#[test]
fn pen_tool_change_alone_reports_a_sample() {
    let mut d = PenDecoder::new(DIGI_MAX_X, DIGI_MAX_Y);
    let s = d.feed(&[ev(EV_KEY, BTN_TOOL_RUBBER, 1), syn()]);
    assert_eq!(s.len(), 1);
    assert_eq!((s[0].tool, s[0].touching), (Tool::Eraser, false));
    let s = d.feed(&[ev(EV_KEY, BTN_TOOL_PEN, 1), syn(), ev(EV_KEY, BTN_TOOL_PEN, 0), syn()]);
    assert_eq!(s.len(), 1);
    assert_eq!(s[0].tool, Tool::Pen);
}
