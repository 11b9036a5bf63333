//! A game session: the board, the row being written, which dialog is open,
//! and the decisions taken on each pen sample, tap, recognition result and
//! submitted row. Drawing, timing and running the recognizer are the caller's:
//! each decision returns the action for it to perform.

use vstd::prelude::*;
use crate::game::{
    avoid_spec, correct_guess, correction_spec, eligible_view, is_word, words_view, after_guess, Game, State,
    Words, COLS, PICK_TRIES, ROWS,
};
use crate::history::{lemma_remember_keeps_newest, remember, remember_spec, CAP};
use crate::ink::{cell_at, cell_at_spec, ink_segment, inked, on_segment, segment_count};
use crate::pen::{PenSample, Tool};
use crate::render::{
    buttons, cell_xy, cell_xy_spec, confirm_yes_hit, gameover_new_hit, help_hit, hint_card_hit, hint_close_hit,
    hint_hit, in_rect, quit_hit, BTN_H, BTN_Y, CELL, CF_BTN_H, CF_BTN_W, CF_BTN_Y, CF_YES_X, GO_BTN_H, GO_BTN_W,
    GO_BTN_X, GO_BTN_Y, H, HELP_H, HELP_W, HELP_X, HELP_Y, HINT_H, HINT_W, HINT_X, HINT_Y, HP_BTN_H, HP_BTN_W,
    HP_BTN_X, HP_BTN_Y, HP_H, HP_W, HP_X, HP_Y, QUIT_H, QUIT_W, QUIT_X, QUIT_Y, W,
};

verus! {

/// Bytes of one cell's ink plane (`CELL` x `CELL`).
pub const PLANE: usize = 40000;
/// Radius of the on-screen pen brush.
pub const PEN_R: i32 = 6;
/// Radius of the disks stamped into a cell's ink plane.
pub const INK_R: i32 = 4;
/// A touching pen inks only above this pressure.
pub const INK_PRESSURE: i32 = 40;

pub open spec fn blank_ink(n: nat) -> Seq<u8> {
    Seq::new(n, |i: int| 0u8)
}

/// One cell of the row being written.
pub struct Cell {
    /// Dense ink: 0 = paper, 255 = stroke, row-major `CELL` x `CELL`.
    pub ink: Vec<u8>,
    /// The letter the recognizer read.
    pub letter: Option<u8>,
    /// Ink was added since the last reading.
    pub dirty: bool,
}

impl Cell {
    /// No ink, no letter, nothing pending.
    pub open spec fn is_blank(&self) -> bool {
        &&& self.ink@ == blank_ink(PLANE as nat)
        &&& self.letter is None
        &&& !self.dirty
    }

    pub fn new() -> (c: Cell)
        ensures
            c.is_blank(),
    {
        let mut ink: Vec<u8> = Vec::new();
        while ink.len() < PLANE
            invariant
                ink@.len() <= PLANE,
                forall|k: int| 0 <= k < ink@.len() ==> #[trigger] ink@[k] == 0u8,
            decreases PLANE - ink@.len(),
        {
            ink.push(0);
        }
        assert(ink@ =~= blank_ink(PLANE as nat));
        Cell { ink, letter: None, dirty: false }
    }

    /// Wipe the ink and forget the reading.
    pub fn clear(&mut self)
        ensures
            final(self).ink@ == blank_ink(old(self).ink@.len()),
            final(self).letter is None,
            !final(self).dirty,
    {
        let n = self.ink.len();
        let mut i: usize = 0;
        while i < n
            invariant
                n == self.ink@.len(),
                i <= n,
                forall|k: int| 0 <= k < i ==> #[trigger] self.ink@[k] == 0u8,
            decreases n - i,
        {
            self.ink.set(i, 0);
            i += 1;
        }
        assert(self.ink@ =~= blank_ink(n as nat));
        self.letter = None;
        self.dirty = false;
    }
}

/// Which dialogs are open, and whether the board is locked or the player quit.
#[derive(Debug, Clone, Copy, PartialEq, Eq, Structural)]
pub struct Flags {
    /// The game is over; the board takes no more writing.
    pub locked: bool,
    pub quit: bool,
    pub help: bool,
    /// The game-over card is shown.
    pub gover: bool,
    /// The "start a new game?" card is shown.
    pub confirm_new: bool,
    /// The mid-game meaning clue is shown.
    pub hint_popup: bool,
}

/// A dialog is open or the board is locked: the pen does not write.
pub open spec fn busy(f: Flags) -> bool {
    f.locked || f.help || f.confirm_new || f.hint_popup || f.gover
}

pub struct Session {
    pub game: Game,
    /// The cells of the row being written.
    pub cells: Vec<Cell>,
    /// The cell the pen last wrote in.
    pub active: Option<usize>,
    /// The cell shown as focused.
    pub focus: usize,
    /// The previous point of the current pen stroke.
    pub last_pt: Option<(i32, i32)>,
    pub flags: Flags,
    /// Recent answers, newest last, which the next pick avoids.
    pub recent: Vec<[u8; 5]>,
}

/// A point on the screen.
pub open spec fn on_screen(p: (i32, i32)) -> bool {
    0 <= p.0 <= W && 0 <= p.1 <= H
}

/// Every cell of the row is blank.
pub open spec fn row_blank(cells: Seq<Cell>) -> bool {
    &&& cells.len() == COLS
    &&& forall|c: int| 0 <= c < COLS ==> #[trigger] cells[c].is_blank()
}

/// Every cell of the row has a letter.
pub open spec fn row_full(cells: Seq<Cell>) -> bool {
    forall|c: int| 0 <= c < COLS ==> #[trigger] cells[c].letter is Some
}

/// Some cell of the row has ink waiting to be read.
pub open spec fn any_dirty(cells: Seq<Cell>) -> bool {
    exists|c: int| 0 <= c < COLS && #[trigger] cells[c].dirty
}

/// The letters of a full row, as a word.
pub open spec fn read_word(cells: Seq<Cell>) -> Seq<u8> {
    Seq::new(COLS as nat, |c: int| cells[c].letter->0)
}

/// The first cell without a letter, or the last cell when all have one.
pub open spec fn first_empty(cells: Seq<Cell>, from: int) -> usize
    decreases COLS - from,
{
    if from >= COLS - 1 {
        (COLS - 1) as usize
    } else if cells[from].letter is None {
        from as usize
    } else {
        first_empty(cells, from + 1)
    }
}

/// The last of the first `n` cells that has a letter.
pub open spec fn last_lettered(cells: Seq<Cell>, n: int) -> Option<usize>
    decreases n,
{
    if n <= 0 {
        None
    } else if cells[n - 1].letter is Some {
        Some((n - 1) as usize)
    } else {
        last_lettered(cells, n - 1)
    }
}

/// The cell Delete clears: the focused cell if it holds a letter or ink,
/// else the last cell with a letter.
pub open spec fn delete_target(s: Session) -> Option<usize> {
    let f = s.cells@[s.focus as int];
    if f.letter is Some || f.dirty {
        Some(s.focus)
    } else {
        last_lettered(s.cells@, COLS as int)
    }
}

/// The game has progress that New would throw away.
pub open spec fn in_progress(s: Session) -> bool {
    s.game.state == State::Playing && (s.game.filled_rows > 0 || exists|c: int|
        0 <= c < COLS && (#[trigger] s.cells@[c].letter is Some || s.cells@[c].dirty))
}

/// What the caller does after a tap.
#[derive(Debug, Clone, Copy, PartialEq, Eq, Structural)]
pub enum TapAction {
    Nothing,
    /// A dialog closed: redraw the whole board.
    Restore,
    /// Start a new game (`Session::new_game`) and redraw.
    NewGame,
    /// Show the rules.
    ShowHelp,
    /// Show the meaning clue of the answer.
    ShowHint,
    /// Leave the game.
    Quit,
    /// This cell was cleared and focused: redraw it and the buttons.
    ClearedCell(usize),
    /// Ask whether to abandon the game in progress.
    ShowConfirm,
    /// Submit the row (`Session::submit`).
    Submit,
}

/// The control bar's Delete, Enter and New buttons.
pub open spec fn on_delete(x: int, y: int) -> bool {
    in_rect(150, BTN_Y as int, 390, BTN_H as int, x, y)
}

pub open spec fn on_enter(x: int, y: int) -> bool {
    in_rect(580, BTN_Y as int, 460, BTN_H as int, x, y)
}

pub open spec fn on_new(x: int, y: int) -> bool {
    in_rect(1080, BTN_Y as int, 390, BTN_H as int, x, y)
}

/// The decision for a tap at `(x, y)` and the dialogs afterwards. An open
/// dialog takes every tap: the clue closes on its button or outside the card,
/// the game-over card starts a new game from its button and otherwise closes,
/// the confirmation closes either way and starts a new game on "yes", the
/// rules close on any tap. Otherwise the tap hits Rules, Hint (only in play),
/// Quit, Delete, New (asking first when progress would be lost), Enter, or a
/// cell of the row being written, which it clears.
pub open spec fn tap_outcome(s: Session, x: int, y: int) -> (TapAction, Flags) {
    let f = s.flags;
    if f.hint_popup {
        if in_rect(HP_BTN_X as int, HP_BTN_Y as int, HP_BTN_W as int, HP_BTN_H as int, x, y) || !in_rect(
            HP_X as int,
            HP_Y as int,
            HP_W as int,
            HP_H as int,
            x,
            y,
        ) {
            (TapAction::Restore, Flags { hint_popup: false, ..f })
        } else {
            (TapAction::Nothing, f)
        }
    } else if f.gover {
        if in_rect(GO_BTN_X as int, GO_BTN_Y as int, GO_BTN_W as int, GO_BTN_H as int, x, y) {
            (TapAction::NewGame, f)
        } else {
            (TapAction::Restore, Flags { gover: false, ..f })
        }
    } else if f.confirm_new {
        (if in_rect(CF_YES_X as int, CF_BTN_Y as int, CF_BTN_W as int, CF_BTN_H as int, x, y) {
            TapAction::NewGame
        } else {
            TapAction::Restore
        }, Flags { confirm_new: false, ..f })
    } else if f.help {
        (TapAction::Restore, Flags { help: false, ..f })
    } else if in_rect(HELP_X as int, HELP_Y as int, HELP_W as int, HELP_H as int, x, y) {
        (TapAction::ShowHelp, Flags { help: true, ..f })
    } else if in_rect(HINT_X as int, HINT_Y as int, HINT_W as int, HINT_H as int, x, y) && s.game.state
        == State::Playing && !f.locked {
        (TapAction::ShowHint, Flags { hint_popup: true, ..f })
    } else if in_rect(QUIT_X as int, QUIT_Y as int, QUIT_W as int, QUIT_H as int, x, y) {
        (TapAction::Quit, Flags { quit: true, ..f })
    } else if on_delete(x, y) {
        match delete_target(s) {
            Some(c) => (TapAction::ClearedCell(c), f),
            None => (TapAction::Nothing, f),
        }
    } else if on_new(x, y) {
        if in_progress(s) {
            (TapAction::ShowConfirm, Flags { confirm_new: true, ..f })
        } else {
            (TapAction::NewGame, f)
        }
    } else if on_enter(x, y) {
        (TapAction::Submit, f)
    } else {
        match cell_at_spec(s.game, x, y) {
            Some(c) => (TapAction::ClearedCell(c), f),
            None => (TapAction::Nothing, f),
        }
    }
}

/// What the caller draws after a pen sample.
#[derive(Debug, Clone, Copy)]
pub enum PenAction {
    /// Nothing to draw; the stroke (if any) ended.
    Skip,
    /// The eraser cleared this cell of the row being written.
    Erased(usize),
    /// The pen inked cell `col`: draw from `from` (or a dot when `None`) to the
    /// sample. `wiped` when the cell's earlier reading was cleared first.
    Inked { col: usize, wiped: bool, from: Option<(i32, i32)> },
}

/// The decision for a pen sample. The eraser clears the cell under it when
/// that cell holds a letter or ink; the pen writes into the cell under it when
/// touching above `INK_PRESSURE`, first wiping a cell that was already read.
/// Nothing happens while a dialog is open or the board is locked.
pub open spec fn pen_action(s: Session, p: PenSample) -> PenAction {
    let target = cell_at_spec(s.game, p.x as int, p.y as int);
    if p.tool == Tool::Eraser {
        match target {
            Some(c) => if p.touching && !busy(s.flags) && (s.cells@[c as int].letter is Some
                || s.cells@[c as int].dirty) {
                PenAction::Erased(c)
            } else {
                PenAction::Skip
            },
            None => PenAction::Skip,
        }
    } else if !(p.touching && p.pressure > INK_PRESSURE) || busy(s.flags) {
        PenAction::Skip
    } else {
        match target {
            Some(c) => PenAction::Inked {
                col: c,
                wiped: s.cells@[c as int].letter is Some && !s.cells@[c as int].dirty,
                from: s.last_pt,
            },
            None => PenAction::Skip,
        }
    }
}

/// Cell `k` of column `col`'s ink plane is covered by the stroke from the
/// previous point (or the sample itself) to the sample.
pub open spec fn stroke_covers(s: Session, p: PenSample, col: int, k: int) -> bool {
    let a = match s.last_pt {
        Some(q) => q,
        None => (p.x, p.y),
    };
    let o = cell_xy_spec(s.game.filled_rows as int, col);
    let (x0, y0, x1, y1) = (a.0 - o.0, a.1 - o.1, p.x - o.0, p.y - o.1);
    on_segment(CELL as int, CELL as int, x0, y0, x1, y1, INK_R as int, segment_count(x0, y0, x1, y1, INK_R as int)
        + 1, true, k)
}

/// The seed for the next game: the caller's seed mixed with the letters of the
/// answer just played, so back-to-back games differ even at the same seed.
pub open spec fn mix_seed(seed: u64, w: Seq<u8>, n: int) -> u64
    decreases n,
{
    if n <= 0 {
        seed
    } else {
        vstd::wrapping::u64_specs::wrapping_add(
            vstd::wrapping::u64_specs::wrapping_mul(mix_seed(seed, w, n - 1), 31u64),
            w[n - 1] as u64,
        )
    }
}

/// `g` is a fresh game of `answer`.
pub open spec fn is_new_game(g: Game, answer: [u8; 5]) -> bool {
    &&& g.answer == answer
    &&& g.filled_rows == 0
    &&& g.state == State::Playing
    &&& forall|r: int, c: int| 0 <= r < ROWS && 0 <= c < COLS ==> #[trigger] g.rows[r][c] == 0u8
    &&& forall|k: int| 0 <= k < 26 ==> #[trigger] g.letter[k] == crate::game::Mark::Empty
}

/// What became of a submitted row.
#[derive(Debug, Clone, Copy)]
pub enum SubmitOutcome {
    /// The game is over or the board locked.
    Refused,
    /// Some cell has no letter.
    MissingLetters,
    /// The letters are not an accepted word, and there is no single correction.
    NotAWord,
    /// `word` was scored; `corrected[c]` where it differs from what was read;
    /// `over` when the game ended with it.
    Scored { word: [u8; 5], corrected: [bool; COLS], over: bool },
}

fn blank_row() -> (v: Vec<Cell>)
    ensures
        row_blank(v@),
        forall|c: int| 0 <= c < COLS ==> (#[trigger] v@[c]).ink@.len() == PLANE,
{
    let mut v: Vec<Cell> = Vec::new();
    while v.len() < COLS
        invariant
            v@.len() <= COLS,
            forall|c: int| 0 <= c < v@.len() ==> #[trigger] v@[c].is_blank(),
        decreases COLS - v@.len(),
    {
        v.push(Cell::new());
    }
    assert forall|c: int| 0 <= c < COLS implies (#[trigger] v@[c]).ink@.len() == PLANE by {
        assert(v@[c].is_blank());
    }
    v
}

fn mixed_seed(seed: u64, w: &[u8; 5]) -> (s: u64)
    ensures
        s == mix_seed(seed, w@, COLS as int),
{
    let mut s = seed;
    let mut i: usize = 0;
    while i < COLS
        invariant
            i <= COLS,
            s == mix_seed(seed, w@, i as int),
        decreases COLS - i,
    {
        s = s.wrapping_mul(31).wrapping_add(w[i] as u64);
        i += 1;
    }
    s
}

impl Session {
    /// A well-formed session: a well-formed game, a row of `COLS` cells with
    /// full ink planes, a focus on the row, and the stroke point on the screen.
    pub open spec fn wf(&self) -> bool {
        &&& self.game.wf()
        &&& self.cells@.len() == COLS
        &&& forall|c: int| 0 <= c < COLS ==> (#[trigger] self.cells@[c]).ink@.len() == PLANE
        &&& self.focus < COLS
        &&& (self.last_pt matches Some(p) ==> on_screen(p))
        &&& self.recent@.len() <= CAP
    }

    /// The first game of a sitting: an answer picked from `seed` avoiding the
    /// recent ones (which then remember it), a blank board, no dialog.
    pub fn start(words: &Words, seed: u64, recent: Vec<[u8; 5]>) -> (s: Session)
        requires
            words.wf(),
            words.answers@.len() > 0,
            recent@.len() < usize::MAX,
        ensures
            s.wf(),
            s.game.answer@ == avoid_spec(words.answer_words(), words_view(recent@), seed, PICK_TRIES as nat),
            is_new_game(s.game, s.game.answer),
            s.recent@ == remember_spec(recent@, s.game.answer),
            row_blank(s.cells@),
            s.active is None,
            s.focus == 0,
            s.last_pt is None,
            s.flags == (Flags {
                locked: false,
                quit: false,
                help: false,
                gover: false,
                confirm_new: false,
                hint_popup: false,
            }),
    {
        let first = words.pick_avoiding(seed, recent.as_slice());
        let mut recent = recent;
        proof {
            lemma_remember_keeps_newest(recent@, first);
        }
        remember(&mut recent, first);
        proof {
            let i = choose|i: int| 0 <= i < words.answer_words().len() && words.answer_words()[i] == first@;
            assert(words.answers@[i]@ == first@);
        }
        let s = Session {
            game: Game::new(first),
            cells: blank_row(),
            active: None,
            focus: 0,
            last_pt: None,
            flags: Flags { locked: false, quit: false, help: false, gover: false, confirm_new: false, hint_popup: false },
            recent,
        };
        s
    }

    /// Start the next game: an answer picked avoiding the recent ones from
    /// `seed` mixed with the answer just played, a blank board, and the game
    /// dialogs closed and the board unlocked.
    pub fn new_game(&mut self, words: &Words, seed: u64)
        requires
            old(self).wf(),
            words.wf(),
            words.answers@.len() > 0,
        ensures
            final(self).wf(),
            final(self).game.answer@ == avoid_spec(words.answer_words(), words_view(old(self).recent@), mix_seed(
                seed,
                old(self).game.answer@,
                COLS as int,
            ), PICK_TRIES as nat),
            is_new_game(final(self).game, final(self).game.answer),
            final(self).recent@ == remember_spec(old(self).recent@, final(self).game.answer),
            row_blank(final(self).cells@),
            final(self).active is None,
            final(self).focus == 0,
            final(self).last_pt is None,
            final(self).flags == (Flags {
                locked: false,
                gover: false,
                confirm_new: false,
                hint_popup: false,
                ..old(self).flags
            }),
    {
        let s = mixed_seed(seed, &self.game.answer);
        let next = words.pick_avoiding(s, self.recent.as_slice());
        proof {
            lemma_remember_keeps_newest(self.recent@, next);
        }
        remember(&mut self.recent, next);
        proof {
            let i = choose|i: int| 0 <= i < words.answer_words().len() && words.answer_words()[i] == next@;
            assert(words.answers@[i]@ == next@);
        }
        self.game = Game::new(next);
        self.cells = blank_row();
        self.active = None;
        self.focus = 0;
        self.last_pt = None;
        self.flags.locked = false;
        self.flags.gover = false;
        self.flags.confirm_new = false;
        self.flags.hint_popup = false;
    }

    /// The letters read in the row.
    pub fn letters(&self) -> (a: [Option<u8>; COLS])
        requires
            self.wf(),
        ensures
            forall|c: int| 0 <= c < COLS ==> #[trigger] a[c] == self.cells@[c].letter,
    {
        [self.cells[0].letter, self.cells[1].letter, self.cells[2].letter, self.cells[3].letter, self.cells[4].letter]
    }

    /// Start the row afresh: blank cells, focus on the first, no stroke.
    pub fn reset_row(&mut self)
        requires
            old(self).wf(),
        ensures
            final(self).wf(),
            row_blank(final(self).cells@),
            final(self).active is None,
            final(self).focus == 0,
            final(self).last_pt is None,
            final(self).game == old(self).game,
            final(self).flags == old(self).flags,
            final(self).recent@ == old(self).recent@,
    {
        self.cells = blank_row();
        self.active = None;
        self.focus = 0;
        self.last_pt = None;
    }

    /// A dialog is open or the board is locked.
    pub fn busy(&self) -> (r: bool)
        ensures
            r == busy(self.flags),
    {
        let f = self.flags;
        f.locked || f.help || f.confirm_new || f.hint_popup || f.gover
    }

    /// Enter is enabled: the game is in play and every cell has a letter.
    pub fn enter_enabled(&self) -> (r: bool)
        requires
            self.wf(),
        ensures
            r == (self.game.state == State::Playing && !self.flags.locked && row_full(self.cells@)),
    {
        if self.game.state != State::Playing || self.flags.locked {
            return false;
        }
        let mut c: usize = 0;
        while c < COLS
            invariant
                c <= COLS,
                self.cells@.len() == COLS,
                forall|k: int| 0 <= k < c ==> #[trigger] self.cells@[k].letter is Some,
            decreases COLS - c,
        {
            if self.cells[c].letter.is_none() {
                return false;
            }
            c += 1;
        }
        true
    }

    /// The game is in play: Hint is enabled and a row can be submitted.
    pub fn in_play(&self) -> (r: bool)
        ensures
            r == (self.game.state == State::Playing && !self.flags.locked),
    {
        self.game.state == State::Playing && !self.flags.locked
    }

    fn dirty_cell(&self) -> (r: bool)
        requires
            self.wf(),
        ensures
            r == any_dirty(self.cells@),
    {
        let mut c: usize = 0;
        while c < COLS
            invariant
                c <= COLS,
                self.cells@.len() == COLS,
                forall|k: int| 0 <= k < c ==> !#[trigger] self.cells@[k].dirty,
            decreases COLS - c,
        {
            if self.cells[c].dirty {
                return true;
            }
            c += 1;
        }
        false
    }

    /// Ink waits to be read and no dialog is open (the caller also waits for
    /// the pen to rest).
    pub fn needs_recognition(&self) -> (r: bool)
        requires
            self.wf(),
        ensures
            r == (!busy(self.flags) && any_dirty(self.cells@)),
    {
        !self.busy() && self.dirty_cell()
    }

    /// Record the recognizer's reading of cell `c`: its letter when it read
    /// one; either way the cell's ink has been read.
    pub fn recognized(&mut self, c: usize, read: Option<u8>)
        requires
            old(self).wf(),
            c < COLS,
        ensures
            final(self).wf(),
            final(self).cells@.len() == COLS,
            final(self).cells@[c as int].letter == (match read {
                Some(l) => Some(l),
                None => old(self).cells@[c as int].letter,
            }),
            !final(self).cells@[c as int].dirty,
            final(self).cells@[c as int].ink@ == old(self).cells@[c as int].ink@,
            forall|k: int| 0 <= k < COLS && k != c ==> #[trigger] final(self).cells@[k] == old(self).cells@[k],
            final(self).game == old(self).game,
            final(self).flags == old(self).flags,
            final(self).focus == old(self).focus,
            final(self).active == old(self).active,
            final(self).last_pt == old(self).last_pt,
            final(self).recent@ == old(self).recent@,
    {
        let mut cell = self.cells.remove(c);
        if let Some(l) = read {
            cell.letter = Some(l);
        }
        cell.dirty = false;
        self.cells.insert(c, cell);
        assert forall|k: int| 0 <= k < COLS implies (#[trigger] self.cells@[k]).ink@.len() == PLANE by {
            if k != c {
                assert(self.cells@[k] == old(self).cells@[k]);
            }
        }
    }

    /// Focus the first cell without a letter (the last cell when all have one).
    pub fn refocus(&mut self)
        requires
            old(self).wf(),
        ensures
            final(self).wf(),
            final(self).focus == first_empty(old(self).cells@, 0),
            final(self).cells@ == old(self).cells@,
            final(self).game == old(self).game,
            final(self).flags == old(self).flags,
            final(self).active == old(self).active,
            final(self).last_pt == old(self).last_pt,
            final(self).recent@ == old(self).recent@,
    {
        let mut c: usize = 0;
        while c < COLS - 1 && self.cells[c].letter.is_some()
            invariant
                c <= COLS - 1,
                self.cells@.len() == COLS,
                first_empty(self.cells@, 0) == first_empty(self.cells@, c as int),
            decreases COLS - c,
        {
            c += 1;
        }
        self.focus = c;
    }

    /// Apply one pen sample to the row being written (see `pen_action`):
    /// erase, or stamp the stroke from the previous point into the cell's ink
    /// plane and mark the cell for reading.
    pub fn pen_sample(&mut self, p: PenSample) -> (a: PenAction)
        requires
            old(self).wf(),
        ensures
            final(self).wf(),
            a == pen_action(*old(self), p),
            final(self).game == old(self).game,
            final(self).flags == old(self).flags,
            final(self).recent@ == old(self).recent@,
            final(self).cells@.len() == COLS,
            match a {
                PenAction::Skip => final(self).cells@ == old(self).cells@ && final(self).focus == old(self).focus
                    && final(self).active == old(self).active && final(self).last_pt is None,
                PenAction::Erased(c) => {
                    &&& final(self).cells@[c as int].is_blank()
                    &&& forall|k: int| 0 <= k < COLS && k != c ==> #[trigger] final(self).cells@[k] == old(self).cells@[k]
                    &&& final(self).focus == c
                    &&& final(self).active == old(self).active
                    &&& final(self).last_pt is None
                },
                PenAction::Inked { col, wiped, from } => {
                    &&& inked(
                        if wiped {
                            blank_ink(PLANE as nat)
                        } else {
                            old(self).cells@[col as int].ink@
                        },
                        final(self).cells@[col as int].ink@,
                        |k: int| stroke_covers(*old(self), p, col as int, k),
                    )
                    &&& final(self).cells@[col as int].letter == (if wiped {
                        None
                    } else {
                        old(self).cells@[col as int].letter
                    })
                    &&& final(self).cells@[col as int].dirty
                    &&& forall|k: int| 0 <= k < COLS && k != col ==> #[trigger] final(self).cells@[k] == old(self).cells@[k]
                    &&& final(self).focus == col
                    &&& final(self).active == Some(col)
                    &&& final(self).last_pt == Some((p.x, p.y))
                },
            },
    {
        let target = cell_at(&self.game, p.x, p.y);
        if p.tool == Tool::Eraser {
            let mut act = PenAction::Skip;
            if let Some(c) = target {
                if p.touching && !self.busy() && (self.cells[c].letter.is_some() || self.cells[c].dirty) {
                    self.clear_cell(c);
                    self.focus = c;
                    act = PenAction::Erased(c);
                }
            }
            self.last_pt = None;
            return act;
        }
        if !(p.touching && p.pressure > INK_PRESSURE) || self.busy() {
            self.last_pt = None;
            return PenAction::Skip;
        }
        let col = match target {
            Some(c) => c,
            None => {
                self.last_pt = None;
                return PenAction::Skip;
            },
        };
        let ghost start = *self;
        let wiped = self.cells[col].letter.is_some() && !self.cells[col].dirty;
        if wiped {
            self.clear_cell(col);
        }
        let ghost base = self.cells@[col as int].ink@;
        assert(base == if wiped {
            blank_ink(PLANE as nat)
        } else {
            start.cells@[col as int].ink@
        });
        self.active = Some(col);
        self.focus = col;
        let (cx, cy) = cell_xy(self.game.filled_rows, col);
        let prev = self.last_pt;
        let (ax, ay) = match prev {
            Some(q) => q,
            None => (p.x, p.y),
        };
        let mut cell = self.cells.remove(col);
        ink_segment(cell.ink.as_mut_slice(), CELL, CELL, ax - cx, ay - cy, p.x - cx, p.y - cy, INK_R);
        cell.dirty = true;
        self.cells.insert(col, cell);
        self.last_pt = Some((p.x, p.y));
        assert forall|k: int| 0 <= k < COLS implies (#[trigger] self.cells@[k]).ink@.len() == PLANE by {
            if k != col {
                assert(self.cells@[k] == start.cells@[k]);
            }
        }
        PenAction::Inked { col, wiped, from: prev }
    }

    fn delete_target_cell(&self) -> (t: Option<usize>)
        requires
            self.wf(),
        ensures
            t == delete_target(*self),
            t matches Some(c) ==> c < COLS,
    {
        let f = self.focus;
        if self.cells[f].letter.is_some() || self.cells[f].dirty {
            return Some(f);
        }
        let mut n: usize = COLS;
        while n > 0
            invariant
                n <= COLS,
                self.cells@.len() == COLS,
                last_lettered(self.cells@, COLS as int) == last_lettered(self.cells@, n as int),
                self.focus < COLS,
                !(self.cells@[self.focus as int].letter is Some || self.cells@[self.focus as int].dirty),
            decreases n,
        {
            if self.cells[n - 1].letter.is_some() {
                assert(self.cells@[n - 1].letter is Some);
                assert(last_lettered(self.cells@, n as int) == Some((n - 1) as usize));
                return Some(n - 1);
            }
            n -= 1;
        }
        None
    }

    fn progress_at_stake(&self) -> (r: bool)
        requires
            self.wf(),
        ensures
            r == in_progress(*self),
    {
        if self.game.state != State::Playing {
            return false;
        }
        if self.game.filled_rows > 0 {
            return true;
        }
        let mut c: usize = 0;
        while c < COLS
            invariant
                c <= COLS,
                self.cells@.len() == COLS,
                forall|k: int| 0 <= k < c ==> !(#[trigger] self.cells@[k].letter is Some || self.cells@[k].dirty),
                self.game.state == State::Playing,
            decreases COLS - c,
        {
            if self.cells[c].letter.is_some() || self.cells[c].dirty {
                assert(self.cells@[c as int].letter is Some || self.cells@[c as int].dirty);
                return true;
            }
            c += 1;
        }
        false
    }

    /// Apply a tap at `(x, y)` in screen pixels (see `tap_outcome`).
    pub fn on_tap(&mut self, x: i32, y: i32) -> (a: TapAction)
        requires
            old(self).wf(),
        ensures
            final(self).wf(),
            (a, final(self).flags) == tap_outcome(*old(self), x as int, y as int),
            final(self).game == old(self).game,
            final(self).recent@ == old(self).recent@,
            final(self).active == old(self).active,
            final(self).last_pt == old(self).last_pt,
            final(self).cells@.len() == COLS,
            match a {
                TapAction::ClearedCell(c) => {
                    &&& c < COLS
                    &&& final(self).cells@[c as int].is_blank()
                    &&& forall|k: int| 0 <= k < COLS && k != c ==> #[trigger] final(self).cells@[k] == old(self).cells@[k]
                    &&& final(self).focus == c
                },
                _ => final(self).cells@ == old(self).cells@ && final(self).focus == old(self).focus,
            },
    {
        if self.flags.hint_popup {
            if hint_close_hit(x, y) || !hint_card_hit(x, y) {
                self.flags.hint_popup = false;
                return TapAction::Restore;
            }
            return TapAction::Nothing;
        }
        if self.flags.gover {
            if gameover_new_hit(x, y) {
                return TapAction::NewGame;
            }
            self.flags.gover = false;
            return TapAction::Restore;
        }
        if self.flags.confirm_new {
            let start = confirm_yes_hit(x, y);
            self.flags.confirm_new = false;
            return if start {
                TapAction::NewGame
            } else {
                TapAction::Restore
            };
        }
        if self.flags.help {
            self.flags.help = false;
            return TapAction::Restore;
        }
        if help_hit(x, y) {
            self.flags.help = true;
            return TapAction::ShowHelp;
        }
        if hint_hit(x, y) && self.game.state == State::Playing && !self.flags.locked {
            self.flags.hint_popup = true;
            return TapAction::ShowHint;
        }
        if quit_hit(x, y) {
            self.flags.quit = true;
            return TapAction::Quit;
        }
        let btns = buttons(true);
        if btns[0].hit(x, y) {
            return match self.delete_target_cell() {
                Some(c) => {
                    self.clear_cell(c);
                    self.focus = c;
                    TapAction::ClearedCell(c)
                },
                None => TapAction::Nothing,
            };
        }
        if btns[2].hit(x, y) {
            if self.progress_at_stake() {
                self.flags.confirm_new = true;
                return TapAction::ShowConfirm;
            }
            return TapAction::NewGame;
        }
        if btns[1].hit(x, y) {
            return TapAction::Submit;
        }
        match cell_at(&self.game, x, y) {
            Some(c) => {
                self.clear_cell(c);
                self.focus = c;
                TapAction::ClearedCell(c)
            },
            None => TapAction::Nothing,
        }
    }

    /// Submit the row once every dirty cell was read: refused when the game is
    /// not in play; missing letters when a cell has none; otherwise the read
    /// word, or its single correction from the near-tie letters `eligible`
    /// (see `correct_guess`), is scored, the row starts afresh, and a game that
    /// ended locks the board and shows the game-over card.
    pub fn submit(&mut self, words: &Words, eligible: &[Vec<u8>; COLS]) -> (r: SubmitOutcome)
        requires
            old(self).wf(),
            words.wf(),
        ensures
            final(self).wf(),
            final(self).recent@ == old(self).recent@,
            match r {
                SubmitOutcome::Refused => {
                    &&& !(old(self).game.state == State::Playing && !old(self).flags.locked)
                    &&& *final(self) == *old(self)
                },
                SubmitOutcome::MissingLetters => {
                    &&& old(self).game.state == State::Playing && !old(self).flags.locked
                    &&& !row_full(old(self).cells@)
                    &&& *final(self) == *old(self)
                },
                SubmitOutcome::NotAWord => {
                    &&& old(self).game.state == State::Playing && !old(self).flags.locked
                    &&& row_full(old(self).cells@)
                    &&& correction_spec(*words, read_word(old(self).cells@), eligible_view(*eligible), None)
                    &&& *final(self) == *old(self)
                },
                SubmitOutcome::Scored { word, corrected, over } => {
                    &&& old(self).game.state == State::Playing && !old(self).flags.locked
                    &&& row_full(old(self).cells@)
                    &&& correction_spec(*words, read_word(old(self).cells@), eligible_view(*eligible), Some(word@))
                    &&& forall|c: int| 0 <= c < COLS ==> #[trigger] corrected[c] == (word[c] != read_word(
                        old(self).cells@,
                    )[c])
                    &&& after_guess(old(self).game, final(self).game, word)
                    &&& over == (final(self).game.state != State::Playing)
                    &&& final(self).flags == (Flags {
                        locked: old(self).flags.locked || over,
                        gover: old(self).flags.gover || over,
                        ..old(self).flags
                    })
                    &&& row_blank(final(self).cells@)
                    &&& final(self).active is None
                    &&& final(self).focus == 0
                    &&& final(self).last_pt is None
                },
            },
    {
        if !self.in_play() {
            return SubmitOutcome::Refused;
        }
        let letters = self.letters();
        let mut chosen = [0u8; COLS];
        let mut c: usize = 0;
        while c < COLS
            invariant
                c <= COLS,
                self.cells@.len() == COLS,
                forall|k: int| 0 <= k < COLS ==> #[trigger] letters[k] == self.cells@[k].letter,
                forall|k: int| 0 <= k < c ==> #[trigger] self.cells@[k].letter == Some(chosen[k]),
                *self == *old(self),
                self.wf(),
                self.game.state == State::Playing && !self.flags.locked,
            decreases COLS - c,
        {
            match letters[c] {
                Some(l) => {
                    chosen[c] = l;
                },
                None => {
                    return SubmitOutcome::MissingLetters;
                },
            }
            c += 1;
        }
        assert(chosen@ =~= read_word(self.cells@));
        let word = match correct_guess(words, &chosen, eligible) {
            Some(w) => w,
            None => {
                return SubmitOutcome::NotAWord;
            },
        };
        proof {
            let e = eligible_view(*eligible);
            if !words.accepts(chosen@) {
                let (p, j) = choose|p: int, j: int|
                    (p < COLS || (p == COLS && j < 0)) && #[trigger] crate::game::sub_ok(*words, chosen@, e, p, j)
                        && word@ == crate::game::sub_word(chosen@, e, p, j);
                assert(crate::game::sub_ok(*words, chosen@, e, p, j));
            }
            assert(words.accepts(word@));
            assert(is_word(word@));
        }
        let mut corrected = [false; COLS];
        let mut c: usize = 0;
        while c < COLS
            invariant
                c <= COLS,
                forall|k: int| 0 <= k < c ==> #[trigger] corrected[k] == (word[k] != chosen[k]),
            decreases COLS - c,
        {
            corrected[c] = word[c] != chosen[c];
            c += 1;
        }
        self.game.submit(word);
        self.reset_row();
        let over = self.game.state != State::Playing;
        if over {
            self.flags.locked = true;
            self.flags.gover = true;
        }
        SubmitOutcome::Scored { word, corrected, over }
    }

    fn clear_cell(&mut self, c: usize)
        requires
            old(self).wf(),
            c < COLS,
        ensures
            final(self).wf(),
            final(self).cells@.len() == COLS,
            final(self).cells@[c as int].is_blank(),
            forall|k: int| 0 <= k < COLS && k != c ==> #[trigger] final(self).cells@[k] == old(self).cells@[k],
            final(self).game == old(self).game,
            final(self).flags == old(self).flags,
            final(self).focus == old(self).focus,
            final(self).active == old(self).active,
            final(self).last_pt == old(self).last_pt,
            final(self).recent@ == old(self).recent@,
    {
        let mut cell = self.cells.remove(c);
        cell.clear();
        self.cells.insert(c, cell);
        assert forall|k: int| 0 <= k < COLS implies (#[trigger] self.cells@[k]).ink@.len() == PLANE by {
            if k != c {
                assert(self.cells@[k] == old(self).cells@[k]);
            }
        }
    }
}

} // verus!

verus! {

/// While a dialog is open or the board is locked, neither pen nor eraser
/// touches the board.
pub proof fn lemma_busy_board_takes_no_ink(s: Session, p: PenSample)
    requires
        busy(s.flags),
    ensures
        pen_action(s, p) is Skip,
{
}

proof fn lemma_last_lettered_is_last(cells: Seq<Cell>, n: int)
    requires
        0 <= n <= cells.len(),
        n <= COLS,
    ensures
        match last_lettered(cells, n) {
            Some(c) => 0 <= c < n && cells[c as int].letter is Some && forall|k: int| c < k < n ==> #[trigger] cells[k].letter
                is None,
            None => forall|k: int| 0 <= k < n ==> #[trigger] cells[k].letter is None,
        },
    decreases n,
{
    if n > 0 {
        lemma_last_lettered_is_last(cells, n - 1);
    }
}

/// Delete works like backspace: with no dialog open, a tap on Delete clears
/// the focused cell when it holds a letter or ink; otherwise it clears the
/// last cell of the row that holds a letter (no later cell holds one), and
/// does nothing when no cell holds a letter. The dialogs are left as they are.
pub proof fn lemma_delete_is_backspace(s: Session, x: int, y: int)
    requires
        s.cells@.len() == COLS,
        s.focus < COLS,
        !(s.flags.help || s.flags.gover || s.flags.confirm_new || s.flags.hint_popup),
        on_delete(x, y),
    ensures
        tap_outcome(s, x, y).1 == s.flags,
        (s.cells@[s.focus as int].letter is Some || s.cells@[s.focus as int].dirty) ==> tap_outcome(s, x, y).0
            == TapAction::ClearedCell(s.focus),
        !(s.cells@[s.focus as int].letter is Some || s.cells@[s.focus as int].dirty) ==> match tap_outcome(s, x, y).0 {
            TapAction::ClearedCell(c) => c < COLS && s.cells@[c as int].letter is Some && forall|k: int|
                c < k < COLS ==> #[trigger] s.cells@[k].letter is None,
            TapAction::Nothing => forall|k: int| 0 <= k < COLS ==> #[trigger] s.cells@[k].letter is None,
            _ => false,
        },
{
    lemma_last_lettered_is_last(s.cells@, COLS as int);
}

/// A pen or eraser that does not touch the screen never changes the board:
/// only a touching eraser erases, and only a touching pen pressing harder
/// than the ink threshold inks. A touching eraser over a cell of the row
/// being written that holds a letter or ink erases it when no dialog is open.
pub proof fn lemma_only_contact_marks(s: Session, p: PenSample)
    ensures
        !p.touching ==> pen_action(s, p) is Skip,
        pen_action(s, p) is Erased ==> p.tool == Tool::Eraser && p.touching,
        pen_action(s, p) is Inked ==> p.tool != Tool::Eraser && p.touching && p.pressure > INK_PRESSURE,
        ({
            let t = cell_at_spec(s.game, p.x as int, p.y as int);
            (p.tool == Tool::Eraser && p.touching && !busy(s.flags) && t is Some && (s.cells@[t->0 as int].letter is Some
                || s.cells@[t->0 as int].dirty)) ==> pen_action(s, p) == PenAction::Erased(t->0)
        }),
{
}

/// An open dialog takes every tap: it can only close, start a new game, or
/// stay; no cell is cleared, nothing is submitted, and the game does not quit.
pub proof fn lemma_dialog_takes_every_tap(s: Session, x: int, y: int)
    requires
        s.flags.help || s.flags.gover || s.flags.confirm_new || s.flags.hint_popup,
    ensures
        tap_outcome(s, x, y).0 is Nothing || tap_outcome(s, x, y).0 is Restore || tap_outcome(s, x, y).0 is NewGame,
        !tap_outcome(s, x, y).1.quit || s.flags.quit,
{
}

} // verus!

verus! {

/// A box `(x0, y0, x1, y1)`, corners included, of screen pixels awaiting refresh.
pub type InkBox = (i32, i32, i32, i32);

pub open spec fn box_on_screen(b: InkBox) -> bool {
    0 <= b.0 <= b.2 <= W && 0 <= b.1 <= b.3 <= H
}

/// The box spanned by a stroke segment between two screen points, grown to
/// also cover `pending` when some ink already awaits refresh.
pub fn grow_ink_box(pending: Option<InkBox>, a: (i32, i32), b: (i32, i32)) -> (r: InkBox)
    requires
        on_screen(a),
        on_screen(b),
        pending matches Some(p) ==> box_on_screen(p),
    ensures
        box_on_screen(r),
        ({
            let s = (
                if a.0 <= b.0 { a.0 } else { b.0 },
                if a.1 <= b.1 { a.1 } else { b.1 },
                if a.0 >= b.0 { a.0 } else { b.0 },
                if a.1 >= b.1 { a.1 } else { b.1 },
            );
            r == match pending {
                Some(p) => (
                    if p.0 <= s.0 { p.0 } else { s.0 },
                    if p.1 <= s.1 { p.1 } else { s.1 },
                    if p.2 >= s.2 { p.2 } else { s.2 },
                    if p.3 >= s.3 { p.3 } else { s.3 },
                ),
                None => s,
            }
        }),
{
    let x0 = if a.0 <= b.0 { a.0 } else { b.0 };
    let y0 = if a.1 <= b.1 { a.1 } else { b.1 };
    let x1 = if a.0 >= b.0 { a.0 } else { b.0 };
    let y1 = if a.1 >= b.1 { a.1 } else { b.1 };
    match pending {
        Some(p) => (
            if p.0 <= x0 { p.0 } else { x0 },
            if p.1 <= y0 { p.1 } else { y0 },
            if p.2 >= x1 { p.2 } else { x1 },
            if p.3 >= y1 { p.3 } else { y1 },
        ),
        None => (x0, y0, x1, y1),
    }
}

/// The panel region `(x, y, w, h)` to refresh for the ink in box `b`: the box
/// padded by the brush radius and two pixels, clipped to the screen.
pub fn ink_refresh_rect(b: InkBox) -> (r: (i32, i32, i32, i32))
    requires
        box_on_screen(b),
    ensures
        ({
            let pad = PEN_R + 2;
            let ux = if b.0 - pad >= 0 { b.0 - pad } else { 0 };
            let uy = if b.1 - pad >= 0 { b.1 - pad } else { 0 };
            r == (ux as i32, uy as i32, (if b.2 + pad - ux <= W - ux { b.2 + pad - ux } else { W - ux }) as i32, (if b.3
                + pad - uy <= H - uy { b.3 + pad - uy } else { H - uy }) as i32)
        }),
{
    let pad = PEN_R + 2;
    let ux = if b.0 - pad >= 0 { b.0 - pad } else { 0 };
    let uy = if b.1 - pad >= 0 { b.1 - pad } else { 0 };
    let w = if b.2 + pad - ux <= W - ux { b.2 + pad - ux } else { W - ux };
    let h = if b.3 + pad - uy <= H - uy { b.3 + pad - uy } else { H - uy };
    (ux, uy, w, h)
}

/// How long the loop sleeps, in ms: 1 while the pen is writing, 2 while ink
/// awaits reading or refresh, 4 while a message shows, else 8.
pub fn poll_ms(pen_hot: bool, ink_waiting: bool, toast_showing: bool) -> (ms: u64)
    ensures
        ms == if pen_hot {
            1u64
        } else if ink_waiting {
            2u64
        } else if toast_showing {
            4u64
        } else {
            8u64
        },
{
    if pen_hot {
        1
    } else if ink_waiting {
        2
    } else if toast_showing {
        4
    } else {
        8
    }
}

} // verus!
