use inkwordle::game::{State, Words, COLS};
use inkwordle::pen::{PenSample, Tool};
use inkwordle::session::{Cell, PenAction, Session, SubmitOutcome, TapAction, PLANE};

fn w(s: &str) -> [u8; 5] {
    let mut a = [0u8; 5];
    a.copy_from_slice(s.as_bytes());
    a
}

fn words() -> Words {
    Words::load(b"crane\nspeed\nabbey\nswale\n", b"erase\nfizzy\n")
}

/// A session whose answer is "crane": every other answer is recent.
fn session() -> Session {
    let s = Session::start(&words(), 99, vec![w("speed"), w("abbey"), w("swale")]);
    assert_eq!(s.game.answer, w("crane"));
    s
}

fn pen(x: i32, y: i32, pressure: i32) -> PenSample {
    PenSample { x, y, pressure, tool: Tool::Pen, touching: true }
}

fn eraser(x: i32, y: i32) -> PenSample {
    PenSample { x, y, pressure: 500, tool: Tool::Eraser, touching: true }
}

fn write_row(s: &mut Session, word: &str) {
    for (c, b) in word.bytes().enumerate() {
        s.recognized(c, Some(b));
    }
}

fn no_eligible() -> [Vec<u8>; COLS] {
    [vec![], vec![], vec![], vec![], vec![]]
}

#[test]
fn cell_starts_and_clears_blank() {
    let mut c = Cell::new();
    assert_eq!(c.ink.len(), PLANE);
    assert!(c.ink.iter().all(|&v| v == 0) && c.letter.is_none() && !c.dirty);
    c.ink[7] = 255;
    c.letter = Some(b'q');
    c.dirty = true;
    c.clear();
    assert!(c.ink.iter().all(|&v| v == 0) && c.letter.is_none() && !c.dirty);
    assert_eq!(c.ink.len(), PLANE);
}

#[test]
fn session_start_avoids_recent_and_remembers() {
    let s = session();
    assert_eq!(s.recent, vec![w("speed"), w("abbey"), w("swale"), w("crane")]);
    assert_eq!((s.game.filled_rows, s.game.state), (0, State::Playing));
    assert_eq!(s.focus, 0);
    assert!(s.active.is_none() && s.last_pt.is_none());
    assert!(!s.busy() && !s.flags.quit);
    assert!(s.cells.iter().all(|c| c.letter.is_none() && !c.dirty));
}

#[test]
fn session_pen_inks_active_row() {
    let mut s = session();
    // cell (0, 2) has its corner at (710, 268)
    match s.pen_sample(pen(760, 320, 100)) {
        PenAction::Inked { col, wiped, from } => assert_eq!((col, wiped, from), (2, false, None)),
        other => panic!("unexpected {other:?}"),
    }
    assert!(s.cells[2].dirty);
    assert_eq!(s.cells[2].ink[52 * 200 + 50], 255);
    assert_eq!(s.cells[2].ink[0], 0);
    assert_eq!((s.focus, s.active, s.last_pt), (2, Some(2), Some((760, 320))));
    match s.pen_sample(pen(770, 330, 100)) {
        PenAction::Inked { col, from, .. } => assert_eq!((col, from), (2, Some((760, 320)))),
        other => panic!("unexpected {other:?}"),
    }
    assert!(s.needs_recognition());
    // too light, lifted, or off the active row: nothing, and the stroke ends
    assert!(matches!(s.pen_sample(pen(770, 330, 40)), PenAction::Skip));
    assert!(s.last_pt.is_none());
    s.pen_sample(pen(770, 330, 100));
    assert!(matches!(s.pen_sample(PenSample { touching: false, ..pen(770, 330, 100) }), PenAction::Skip));
    assert!(matches!(s.pen_sample(pen(770, 1000, 100)), PenAction::Skip));
    assert!(s.last_pt.is_none());
}

#[test]
fn session_pen_wipes_a_read_cell() {
    let mut s = session();
    s.recognized(2, Some(b'a'));
    match s.pen_sample(pen(760, 320, 100)) {
        PenAction::Inked { col, wiped, .. } => assert_eq!((col, wiped), (2, true)),
        other => panic!("unexpected {other:?}"),
    }
    assert!(s.cells[2].letter.is_none() && s.cells[2].dirty);
    // ink added since: the reading is pending, so a second sample does not wipe
    match s.pen_sample(pen(765, 325, 100)) {
        PenAction::Inked { wiped, .. } => assert!(!wiped),
        other => panic!("unexpected {other:?}"),
    }
}

#[test]
fn session_eraser_clears_written_cell() {
    let mut s = session();
    s.recognized(1, Some(b'r'));
    assert!(matches!(s.pen_sample(eraser(500, 300)), PenAction::Erased(1)));
    assert!(s.cells[1].letter.is_none());
    assert_eq!(s.focus, 1);
    // an empty cell has nothing to erase
    assert!(matches!(s.pen_sample(eraser(500, 300)), PenAction::Skip));
}

#[test]
fn session_open_dialog_blocks_the_pen() {
    let mut s = session();
    s.flags.help = true;
    assert!(matches!(s.pen_sample(pen(760, 320, 100)), PenAction::Skip));
    assert!(s.cells.iter().all(|c| !c.dirty));
    assert!(!s.needs_recognition());
}

#[test]
fn session_dialog_taps() {
    let mut s = session();
    assert_eq!(s.on_tap(60, 60), TapAction::ShowHelp);
    assert!(s.flags.help);
    assert_eq!(s.on_tap(760, 320), TapAction::Restore);
    assert!(!s.flags.help);
    assert_eq!(s.on_tap(60, 140), TapAction::ShowHint);
    assert!(s.flags.hint_popup);
    assert_eq!(s.on_tap(400, 800), TapAction::Nothing);
    assert_eq!(s.on_tap(700, 1030), TapAction::Restore);
    assert!(!s.flags.hint_popup);
    assert_eq!(s.on_tap(60, 140), TapAction::ShowHint);
    assert_eq!(s.on_tap(50, 50), TapAction::Restore);
    s.flags.gover = true;
    assert_eq!(s.on_tap(100, 100), TapAction::Restore);
    assert!(!s.flags.gover);
    s.flags.gover = true;
    assert_eq!(s.on_tap(560, 1180), TapAction::NewGame);
    // the card stays until the new game starts; any other tap closes it
    assert!(s.flags.gover);
    assert_eq!(s.on_tap(1430, 50), TapAction::Restore);
    assert!(!s.flags.gover);
    assert_eq!(s.on_tap(1430, 50), TapAction::Quit);
    assert!(s.flags.quit);
}

#[test]
fn session_control_bar_taps() {
    let mut s = session();
    // Delete with nothing written does nothing; New with no progress starts over
    assert_eq!(s.on_tap(200, 1950), TapAction::Nothing);
    assert_eq!(s.on_tap(1100, 1950), TapAction::NewGame);
    write_row(&mut s, "cr");
    s.focus = 0;
    assert_eq!(s.on_tap(200, 1950), TapAction::ClearedCell(0));
    assert_eq!(s.on_tap(200, 1950), TapAction::ClearedCell(1));
    assert!(s.cells.iter().all(|c| c.letter.is_none()));
    assert_eq!(s.focus, 1);
    // New with a letter written asks first
    write_row(&mut s, "c");
    assert_eq!(s.on_tap(1100, 1950), TapAction::ShowConfirm);
    assert!(s.flags.confirm_new);
    assert_eq!(s.on_tap(300, 1030), TapAction::Restore);
    assert!(!s.flags.confirm_new);
    assert_eq!(s.on_tap(1100, 1950), TapAction::ShowConfirm);
    assert_eq!(s.on_tap(830, 1030), TapAction::NewGame);
    assert!(!s.flags.confirm_new);
    assert_eq!(s.on_tap(600, 1950), TapAction::Submit);
    // a tap on a cell of the active row clears it
    assert_eq!(s.on_tap(280, 300), TapAction::ClearedCell(0));
    assert!(s.cells[0].letter.is_none());
    assert_eq!(s.on_tap(760, 1000), TapAction::Nothing);
}

#[test]
fn session_submit_outcomes() {
    let ws = words();
    let mut s = session();
    write_row(&mut s, "cra");
    assert!(matches!(s.submit(&ws, &no_eligible()), SubmitOutcome::MissingLetters));
    assert!(!s.enter_enabled());
    write_row(&mut s, "xxxxx");
    assert!(s.enter_enabled());
    assert!(matches!(s.submit(&ws, &no_eligible()), SubmitOutcome::NotAWord));
    assert_eq!(s.cells[0].letter, Some(b'x'));
    write_row(&mut s, "speed");
    match s.submit(&ws, &no_eligible()) {
        SubmitOutcome::Scored { word, corrected, over } => {
            assert_eq!((word, corrected, over), (w("speed"), [false; 5], false));
        },
        other => panic!("unexpected {other:?}"),
    }
    assert_eq!((s.game.filled_rows, s.game.state), (1, State::Playing));
    assert!(!s.flags.locked && !s.flags.gover);
    assert!(s.cells.iter().all(|c| c.letter.is_none()) && s.focus == 0);
    // "crano" is not a word; 'e' was a near tie for the last cell
    write_row(&mut s, "crano");
    let eligible: [Vec<u8>; COLS] = [vec![], vec![], vec![], vec![], vec![b'e']];
    match s.submit(&ws, &eligible) {
        SubmitOutcome::Scored { word, corrected, over } => {
            assert_eq!((word, corrected, over), (w("crane"), [false, false, false, false, true], true));
        },
        other => panic!("unexpected {other:?}"),
    }
    assert_eq!(s.game.state, State::Won);
    assert!(s.flags.locked && s.flags.gover);
    write_row(&mut s, "crane");
    assert!(matches!(s.submit(&ws, &no_eligible()), SubmitOutcome::Refused));
    assert!(!s.in_play());
}

#[test]
fn session_new_game_unlocks_and_remembers() {
    let ws = words();
    let mut s = session();
    write_row(&mut s, "crane");
    s.submit(&ws, &no_eligible());
    s.flags.help = true;
    s.new_game(&ws, 12345);
    assert!(!s.flags.locked && !s.flags.gover && !s.flags.confirm_new && !s.flags.hint_popup);
    assert!(s.flags.help);
    assert_eq!((s.game.filled_rows, s.game.state), (0, State::Playing));
    assert_eq!(s.recent.len(), 5);
    assert_eq!(*s.recent.last().unwrap(), s.game.answer);
    assert!(ws.answers.contains(&s.game.answer));
    assert!(s.cells.iter().all(|c| c.letter.is_none() && !c.dirty));
}

#[test]
fn session_refocus_and_reading() {
    let mut s = session();
    write_row(&mut s, "cr");
    s.refocus();
    assert_eq!(s.focus, 2);
    write_row(&mut s, "crane");
    s.refocus();
    assert_eq!(s.focus, 4);
    assert_eq!(s.letters(), [Some(b'c'), Some(b'r'), Some(b'a'), Some(b'n'), Some(b'e')]);
    s.pen_sample(pen(760, 320, 100));
    assert!(s.needs_recognition());
    // a failed reading keeps the letter but still settles the cell
    s.recognized(2, None);
    assert!(!s.needs_recognition());
    assert_eq!(s.cells[2].letter, None);
    s.reset_row();
    assert_eq!(s.letters(), [None; 5]);
}
