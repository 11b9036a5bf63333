//! Layout geometry and colours for the board: grid cells, tracker, control
//! bar, modal cards, and the hit tests for every on-screen control.

use vstd::prelude::*;
use crate::game::{Game, Mark, State, COLS, ROWS};
use crate::surface::{Surface, expand_spec, in_disk, widen5, widen6, BLACK, WHITE, BLUE};
use crate::ui::{at_least, border, in_border, Button};

verus! {

pub const W: i32 = 1620;
pub const H: i32 = 2160;

// grid geometry
pub const CELL: i32 = 200;
pub const GAP: i32 = 20;
pub const STEP: i32 = CELL + GAP;
/// Five cells and four gaps.
pub const GRID_W: i32 = 5 * CELL + 4 * GAP;
/// Centres the grid: `(W - GRID_W) / 2`.
pub const GRID_X0: i32 = 270;
pub const GRID_Y0: i32 = 268;
/// Six rows of cells and five gaps below the top of the grid.
pub const GRID_BOTTOM: i32 = GRID_Y0 + 6 * CELL + 5 * GAP;

pub const TOAST_Y: i32 = 1584;
pub const TOAST_H: i32 = 52;

// letter tracker (A..Z as two rows of 13)
pub const TRACK_Y: i32 = 1656;
pub const TRACK_COLS: i32 = 13;
pub const TRACK_TILE_W: i32 = 108;
pub const TRACK_TILE_H: i32 = 80;
pub const TRACK_GAP: i32 = 10;
pub const TRACK_W: i32 = TRACK_COLS * TRACK_TILE_W + (TRACK_COLS - 1) * TRACK_GAP;
/// Centres the tracker: `(W - TRACK_W) / 2`.
pub const TRACK_X0: i32 = 48;
pub const TRACK_STEP_Y: i32 = TRACK_TILE_H + 12;

// control bar
pub const BTN_Y: i32 = 1902;
pub const BTN_H: i32 = 150;

/// The RGB565 colour nearest to 8-bit `(r, g, b)`: the top 5, 6 and 5 bits.
pub open spec fn rgb565_spec(r: u8, g: u8, b: u8) -> u16 {
    ((r as int / 8) * 2048 + (g as int / 4) * 32 + b as int / 8) as u16
}

pub fn rgb565(r: u8, g: u8, b: u8) -> (c: u16)
    ensures
        c == rgb565_spec(r, g, b),
{
    let c = (((r as u16) >> 3u16) << 11u16) | (((g as u16) >> 2u16) << 5u16) | ((b as u16) >> 3u16);
    assert(c == ((r as u16) / 8) * 2048 + ((g as u16) / 4) * 32 + (b as u16) / 8) by (bit_vector)
        requires
            c == (((r as u16) >> 3u16) << 11u16) | (((g as u16) >> 2u16) << 5u16) | ((b as u16) >> 3u16),
    ;
    c
}

proof fn lemma_widen5_top_bits(v: u16)
    requires
        v < 32,
    ensures
        0 <= widen5(v as int) <= 255,
        widen5(v as int) / 8 == v,
{
    assert(0 <= (v * 255 + 15) / 31 <= 255 && ((v * 255 + 15) / 31) / 8 == v) by (bit_vector)
        requires
            v < 32,
    ;
}

proof fn lemma_widen6_top_bits(v: u16)
    requires
        v < 64,
    ensures
        0 <= widen6(v as int) <= 255,
        widen6(v as int) / 4 == v,
{
    assert(0 <= (v * 255 + 31) / 63 <= 255 && ((v * 255 + 31) / 63) / 4 == v) by (bit_vector)
        requires
            v < 64,
    ;
}

/// Widening an RGB565 colour to 8-bit channels and packing it again is
/// lossless: `rgb565` of `expand565(c)` is `c`, for every colour. White and
/// black pack to `0xFFFF` and `0`.
pub proof fn lemma_rgb565_round_trip(c: u16)
    ensures
        rgb565_spec(expand_spec(c).0, expand_spec(c).1, expand_spec(c).2) == c,
        rgb565_spec(0xff, 0xff, 0xff) == 0xFFFFu16,
        rgb565_spec(0, 0, 0) == 0u16,
{
    let r5 = (c >> 11u16) & 0x1fu16;
    let g6 = (c >> 5u16) & 0x3fu16;
    let b5 = c & 0x1fu16;
    assert(r5 < 32 && g6 < 64 && b5 < 32 && c == r5 * 2048 + g6 * 32 + b5) by (bit_vector)
        requires
            r5 == (c >> 11u16) & 0x1fu16,
            g6 == (c >> 5u16) & 0x3fu16,
            b5 == c & 0x1fu16,
    ;
    lemma_widen5_top_bits(r5);
    lemma_widen6_top_bits(g6);
    lemma_widen5_top_bits(b5);
}

// --- colours (fills pop; glyphs stay black) ---
/// Vivid green fill: `rgb565(0x3a, 0xa8, 0x56)`.
pub const C_CORRECT: u16 = 0x3d4a;
/// Amber fill: `rgb565(0xe2, 0xa4, 0x22)`.
pub const C_PRESENT: u16 = 0xe524;
/// Mid gray fill: `rgb565(0x86, 0x8b, 0x92)`.
pub const C_ABSENT: u16 = 0x8452;
/// Unused tracker tile: `rgb565(0xe8, 0xe8, 0xe8)`.
pub const C_KEYBG: u16 = 0xef5d;
/// Empty-cell hairline: `rgb565(0x9a, 0x9e, 0xa4)`.
pub const C_BORDER: u16 = 0x9cf4;
/// Active-cell accent.
pub const C_ACTIVE: u16 = BLUE;
/// Dim text: `rgb565(0x6c, 0x72, 0x7a)`.
pub const C_DIM: u16 = 0x6b8f;

/// Top-left corner of grid cell `(r, c)`.
pub open spec fn cell_xy_spec(r: int, c: int) -> (int, int) {
    (GRID_X0 + c * STEP, GRID_Y0 + r * STEP)
}

pub fn cell_xy(r: usize, c: usize) -> (p: (i32, i32))
    requires
        r <= 1_000_000,
        c <= 1_000_000,
    ensures
        p.0 == cell_xy_spec(r as int, c as int).0,
        p.1 == cell_xy_spec(r as int, c as int).1,
{
    (GRID_X0 + c as i32 * STEP, GRID_Y0 + r as i32 * STEP)
}

/// The fill colour of a tile with mark `m`.
pub open spec fn fill_spec(m: Mark) -> u16 {
    match m {
        Mark::Correct => C_CORRECT,
        Mark::Present => C_PRESENT,
        Mark::Absent => C_ABSENT,
        Mark::Empty => WHITE,
    }
}

pub fn fill(m: Mark) -> (c: u16)
    ensures
        c == fill_spec(m),
{
    match m {
        Mark::Correct => C_CORRECT,
        Mark::Present => C_PRESENT,
        Mark::Absent => C_ABSENT,
        Mark::Empty => WHITE,
    }
}

/// `(px, py)` lies in the half-open rectangle `[x, x + w) x [y, y + h)`.
pub open spec fn in_rect(x: int, y: int, w: int, h: int, px: int, py: int) -> bool {
    x <= px < x + w && y <= py < y + h
}

pub const QUIT_X: i32 = W - 200;
pub const QUIT_Y: i32 = 44;
pub const QUIT_W: i32 = 152;
pub const QUIT_H: i32 = 76;

pub fn quit_hit(x: i32, y: i32) -> (r: bool)
    ensures
        r == in_rect(QUIT_X as int, QUIT_Y as int, QUIT_W as int, QUIT_H as int, x as int, y as int),
{
    x >= QUIT_X && x < QUIT_X + QUIT_W && y >= QUIT_Y && y < QUIT_Y + QUIT_H
}

pub const HELP_X: i32 = 48;
pub const HELP_Y: i32 = 44;
pub const HELP_W: i32 = 170;
pub const HELP_H: i32 = 76;

pub fn help_hit(x: i32, y: i32) -> (r: bool)
    ensures
        r == in_rect(HELP_X as int, HELP_Y as int, HELP_W as int, HELP_H as int, x as int, y as int),
{
    x >= HELP_X && x < HELP_X + HELP_W && y >= HELP_Y && y < HELP_Y + HELP_H
}

// Hint: smaller, below Rules, so a stray tap near the title won't open it.
pub const HINT_X: i32 = 48;
pub const HINT_Y: i32 = 132;
pub const HINT_W: i32 = 150;
pub const HINT_H: i32 = 64;

pub fn hint_hit(x: i32, y: i32) -> (r: bool)
    ensures
        r == in_rect(HINT_X as int, HINT_Y as int, HINT_W as int, HINT_H as int, x as int, y as int),
{
    x >= HINT_X && x < HINT_X + HINT_W && y >= HINT_Y && y < HINT_Y + HINT_H
}

// Hint popup: a short card.
pub const HP_W: i32 = 1000;
pub const HP_H: i32 = 420;
/// `(W - HP_W) / 2`.
pub const HP_X: i32 = 310;
pub const HP_Y: i32 = 720;
pub const HP_BTN_W: i32 = 360;
pub const HP_BTN_H: i32 = 110;
/// `(W - HP_BTN_W) / 2`.
pub const HP_BTN_X: i32 = 630;
pub const HP_BTN_Y: i32 = HP_Y + HP_H - 130;

/// True if the tap is on the hint popup's "Got it" button.
pub fn hint_close_hit(x: i32, y: i32) -> (r: bool)
    ensures
        r == in_rect(HP_BTN_X as int, HP_BTN_Y as int, HP_BTN_W as int, HP_BTN_H as int, x as int, y as int),
{
    x >= HP_BTN_X && x < HP_BTN_X + HP_BTN_W && y >= HP_BTN_Y && y < HP_BTN_Y + HP_BTN_H
}

/// True if the tap is inside the hint card (not the dimmed outside).
pub fn hint_card_hit(x: i32, y: i32) -> (r: bool)
    ensures
        r == in_rect(HP_X as int, HP_Y as int, HP_W as int, HP_H as int, x as int, y as int),
{
    x >= HP_X && x < HP_X + HP_W && y >= HP_Y && y < HP_Y + HP_H
}

/// The three control buttons: Delete, Enter (wide, centre) and New, laid out
/// symmetrically with 150 px margins and 40 px gaps. The geometry is the same
/// whether or not Enter is enabled.
pub fn buttons(enter_on: bool) -> (b: [Button; 3])
    ensures
        b[0].x == 150 && b[0].y == BTN_Y && b[0].w == 390 && b[0].h == BTN_H && b[0].label@ == "Delete"@,
        b[1].x == 580 && b[1].y == BTN_Y && b[1].w == 460 && b[1].h == BTN_H && b[1].label@ == "Enter"@,
        b[2].x == 1080 && b[2].y == BTN_Y && b[2].w == 390 && b[2].h == BTN_H && b[2].label@ == "New"@,
{
    let (m, g) = (150i32, 40i32);
    let total = W - 2 * m;
    let wide: i32 = 460;
    let side = (total - wide - 2 * g) / 2;
    let del = Button::new(m, BTN_Y, side, BTN_H, "Delete");
    let enter = Button::new(m + side + g, BTN_Y, wide, BTN_H, "Enter");
    let new = Button::new(m + side + g + wide + g, BTN_Y, side, BTN_H, "New");
    [del, enter, new]
}

// --- game-over card ---
pub const GO_W: i32 = 1240;
pub const GO_H: i32 = 920;
/// `(W - GO_W) / 2`.
pub const GO_X: i32 = 190;
pub const GO_Y: i32 = 420;
pub const GO_BTN_W: i32 = 520;
pub const GO_BTN_H: i32 = 140;
/// `(W - GO_BTN_W) / 2`.
pub const GO_BTN_X: i32 = 550;
pub const GO_BTN_Y: i32 = GO_Y + GO_H - 170;

/// True if a tap hit the game-over card's "New Game" button.
pub fn gameover_new_hit(x: i32, y: i32) -> (r: bool)
    ensures
        r == in_rect(GO_BTN_X as int, GO_BTN_Y as int, GO_BTN_W as int, GO_BTN_H as int, x as int, y as int),
{
    x >= GO_BTN_X && x < GO_BTN_X + GO_BTN_W && y >= GO_BTN_Y && y < GO_BTN_Y + GO_BTN_H
}

// --- "start a new game?" confirmation card ---
pub const CF_W: i32 = 1180;
pub const CF_H: i32 = 560;
/// `(W - CF_W) / 2`.
pub const CF_X: i32 = 220;
pub const CF_Y: i32 = 660;
pub const CF_BTN_W: i32 = 500;
pub const CF_BTN_H: i32 = 150;
pub const CF_BTN_Y: i32 = CF_Y + 360;
pub const CF_GAP: i32 = 40;
/// "Keep Playing" (cancel).
pub const CF_NO_X: i32 = CF_X + 60;
/// "New Game" (confirm).
pub const CF_YES_X: i32 = CF_NO_X + CF_BTN_W + CF_GAP;

pub fn confirm_no_hit(x: i32, y: i32) -> (r: bool)
    ensures
        r == in_rect(CF_NO_X as int, CF_BTN_Y as int, CF_BTN_W as int, CF_BTN_H as int, x as int, y as int),
{
    x >= CF_NO_X && x < CF_NO_X + CF_BTN_W && y >= CF_BTN_Y && y < CF_BTN_Y + CF_BTN_H
}

pub fn confirm_yes_hit(x: i32, y: i32) -> (r: bool)
    ensures
        r == in_rect(CF_YES_X as int, CF_BTN_Y as int, CF_BTN_W as int, CF_BTN_H as int, x as int, y as int),
{
    x >= CF_YES_X && x < CF_YES_X + CF_BTN_W && y >= CF_BTN_Y && y < CF_BTN_Y + CF_BTN_H
}

/// The padlock drawn over a locked Enter button, as a sequence of paints on
/// `bytes`: shackle ring (outer disk in `color`, inner disk in white), body,
/// then keyhole (disk and slot in white).
pub open spec fn lock_spec(s: &Surface, bytes: Seq<u8>, cx: int, cy: int, color: u16) -> Seq<u8> {
    let cy = cy - 8;
    let sy = cy - 18;
    let bx = cx - 45;
    let by = cy - 4;
    let b1 = s.paint_seq(bytes, color, |px: int, py: int| in_disk(cx, sy, 30, px, py));
    let b2 = s.paint_seq(b1, WHITE, |px: int, py: int| in_disk(cx, sy, 21, px, py));
    let b3 = s.paint_seq(b2, color, |px: int, py: int| bx <= px < bx + 90 && by <= py < by + 66);
    let b4 = s.paint_seq(b3, WHITE, |px: int, py: int| in_disk(cx, by + 26, 8, px, py));
    s.paint_seq(b4, WHITE, |px: int, py: int| cx - 3 <= px < cx - 3 + 6 && by + 26 <= py < by + 26 + 22)
}

/// A small padlock drawn from primitives, centred on `(cx, cy)`; shown on the
/// Enter button until all five letters are in.
pub fn draw_lock(surf: &mut Surface, cx: i32, cy: i32, color: u16)
    requires
        old(surf).wf(),
        45 <= cx <= 1_000_000,
        56 <= cy <= 1_000_000,
    ensures
        final(surf).wf(),
        old(surf).same_geometry(&*final(surf)),
        final(surf)@ == lock_spec(&*old(surf), old(surf)@, cx as int, cy as int, color),
{
    let ghost s0 = *surf;
    let cy = cy - 8;
    let sy = cy - 18;
    surf.stamp(cx, sy, 30, color);
    let ghost s1 = *surf;
    surf.stamp(cx, sy, 21, WHITE);
    let ghost s2 = *surf;
    let (bw, bh) = (90i32, 66i32);
    let (bx, by) = (cx - bw / 2, cy - 4);
    surf.fill_rect(bx as usize, by as usize, bw as usize, bh as usize, color);
    let ghost s3 = *surf;
    surf.stamp(cx, by + 26, 8, WHITE);
    let ghost s4 = *surf;
    surf.fill_rect((cx - 3) as usize, (by + 26) as usize, 6, 22, WHITE);
    proof {
        s0.lemma_painted_is_paint_seq(s1@, color, |px: int, py: int| in_disk(cx as int, sy as int, 30, px, py));
        s1.lemma_painted_is_paint_seq(s2@, WHITE, |px: int, py: int| in_disk(cx as int, sy as int, 21, px, py));
        s2.lemma_painted_is_paint_seq(s3@, color, |px: int, py: int| (bx as usize) <= px < (bx as usize) + (bw as usize)
            && (by as usize) <= py < (by as usize) + (bh as usize));
        s3.lemma_painted_is_paint_seq(s4@, WHITE, |px: int, py: int| in_disk(cx as int, by + 26, 8, px, py));
        s4.lemma_painted_is_paint_seq(surf@, WHITE, |px: int, py: int| ((cx - 3) as usize) <= px < ((cx - 3) as usize)
            + 6 && ((by + 26) as usize) <= py < ((by + 26) as usize) + 22);
        let l = lock_spec(&s0, s0@, cx as int, cy as int + 8, color);
        assert(surf@ =~= l);
    }
}

} // verus!

verus! {

/// The thin dark frame of a scored tile: `rgb565(0x50, 0x54, 0x58)`.
pub const C_FRAME: u16 = 0x52AB;
/// The pale background of the game-over meaning panel: `rgb565(0xF4, 0xF6, 0xF8)`.
pub const C_PANEL: u16 = 0xF7BF;

/// The frame of a cell: a scored cell gets a thin dark frame; an empty one a
/// hairline, or a bold blue one when focused. `(colour, thickness)`.
pub open spec fn cell_frame_spec(m: Mark, focused: bool) -> (u16, int) {
    if m == Mark::Empty {
        if focused {
            (C_ACTIVE, 6)
        } else {
            (C_BORDER, 3)
        }
    } else {
        (C_FRAME, 2)
    }
}

/// The box of a grid cell at `(x, y)`: its mark's fill, then its frame. The
/// letter is drawn over it.
pub fn draw_cell_frame(surf: &mut Surface, x: i32, y: i32, m: Mark, focused: bool)
    requires
        old(surf).wf(),
        0 <= x <= 1_000_000,
        0 <= y <= 1_000_000,
    ensures
        final(surf).wf(),
        old(surf).same_geometry(&*final(surf)),
        final(surf)@ == old(surf).paint_seq(
            old(surf).paint_seq(old(surf)@, fill_spec(m), |px: int, py: int| in_rect(x as int, y as int, CELL as int,
                CELL as int, px, py)),
            cell_frame_spec(m, focused).0,
            |px: int, py: int| in_border(x as int, y as int, CELL as int, CELL as int, cell_frame_spec(m, focused).1, px, py),
        ),
{
    let ghost s0 = *surf;
    surf.fill_rect(x as usize, y as usize, CELL as usize, CELL as usize, fill(m));
    let ghost s1 = *surf;
    let (c, t) = if m == Mark::Empty {
        if focused {
            (C_ACTIVE, 6i32)
        } else {
            (C_BORDER, 3i32)
        }
    } else {
        (C_FRAME, 2i32)
    };
    border(surf, x, y, CELL, CELL, t, c);
    proof {
        s0.lemma_painted_is_paint_seq(s1@, fill_spec(m), |px: int, py: int| (x as usize) <= px < (x as usize)
            + (CELL as usize) && (y as usize) <= py < (y as usize) + (CELL as usize));
        s1.lemma_painted_is_paint_seq(surf@, c, |px: int, py: int| in_border(x as int, y as int, CELL as int,
            CELL as int, t as int, px, py));
        assert(s1@ =~= s0.paint_seq(s0@, fill_spec(m), |px: int, py: int| in_rect(x as int, y as int, CELL as int,
            CELL as int, px, py)));
        assert(surf@ =~= s0.paint_seq(s1@, c, |px: int, py: int| in_border(x as int, y as int, CELL as int,
            CELL as int, t as int, px, py)));
    }
}

/// What cell `(r, c)` of the grid shows, as (letter, mark, focused): a
/// submitted row its guess and marks, the row being written its letters with
/// the focus, every other row nothing.
pub open spec fn grid_cell_spec(g: Game, letters: Seq<Option<u8>>, focus: int, r: int, c: int) -> (Option<u8>, Mark, bool) {
    if r < g.filled_rows {
        (Some(g.rows[r][c]), g.marks[r][c], false)
    } else if r == g.filled_rows && g.state == State::Playing {
        (letters[c], Mark::Empty, c == focus)
    } else {
        (None, Mark::Empty, false)
    }
}

pub fn grid_cell(g: &Game, letters: &[Option<u8>; COLS], focus: usize, r: usize, c: usize) -> (out: (
    Option<u8>,
    Mark,
    bool,
))
    requires
        r < ROWS,
        c < COLS,
    ensures
        out == grid_cell_spec(*g, letters@, focus as int, r as int, c as int),
{
    if r < g.filled_rows {
        (Some(g.rows[r][c]), g.marks[r][c], false)
    } else if r == g.filled_rows && g.state == State::Playing {
        (letters[c], Mark::Empty, c == focus)
    } else {
        (None, Mark::Empty, false)
    }
}

/// Top-left corner of the tracker tile of letter `i` (0 for A): thirteen
/// tiles per row.
pub open spec fn tracker_tile_spec(i: int) -> (int, int) {
    (TRACK_X0 + (i % TRACK_COLS as int) * (TRACK_TILE_W + TRACK_GAP), TRACK_Y + (i / TRACK_COLS as int) * TRACK_STEP_Y)
}

pub fn tracker_tile(i: usize) -> (p: (i32, i32))
    requires
        i < 26,
    ensures
        p.0 == tracker_tile_spec(i as int).0,
        p.1 == tracker_tile_spec(i as int).1,
{
    let row = (i / TRACK_COLS as usize) as i32;
    let col = (i % TRACK_COLS as usize) as i32;
    (TRACK_X0 + col * (TRACK_TILE_W + TRACK_GAP), TRACK_Y + row * TRACK_STEP_Y)
}

/// A tracker tile's colour: the key background until the letter was guessed,
/// then its best mark's fill.
pub fn tracker_fill(m: Mark) -> (c: u16)
    ensures
        c == if m == Mark::Empty {
            C_KEYBG
        } else {
            fill_spec(m)
        },
{
    if m == Mark::Empty {
        C_KEYBG
    } else {
        fill(m)
    }
}

/// The status line under the title.
#[derive(Debug, Clone, Copy, PartialEq, Eq, Structural)]
pub enum Status {
    /// "Guess n of 6".
    Guess(usize),
    Solved,
    /// "The word was ...".
    WordWas,
}

pub fn status(g: &Game) -> (s: Status)
    requires
        g.filled_rows <= ROWS,
    ensures
        s == match g.state {
            State::Playing => Status::Guess(if g.filled_rows + 1 <= ROWS {
                (g.filled_rows + 1) as usize
            } else {
                ROWS
            }),
            State::Won => Status::Solved,
            State::Lost => Status::WordWas,
        },
{
    match g.state {
        State::Playing => Status::Guess(if g.filled_rows + 1 <= ROWS {
            g.filled_rows + 1
        } else {
            ROWS
        }),
        State::Won => Status::Solved,
        State::Lost => Status::WordWas,
    }
}

/// A dialog card at `(x, y)`, `w` x `h`: white, framed in black `t` px thick,
/// with an `accent_h` px bar in `accent` across the top (a frame thinner than
/// one pixel is drawn one pixel thick). Its text is drawn over it. The box
/// lies at non-negative coordinates and is at least as wide and tall as its
/// frame reaches from the origin.
pub fn draw_card(surf: &mut Surface, x: i32, y: i32, w: i32, h: i32, t: i32, accent_h: i32, accent: u16)
    requires
        old(surf).wf(),
        0 <= x,
        0 <= y,
        0 <= w,
        0 <= h,
        0 <= accent_h,
        at_least(t as int, 1) <= x + w,
        at_least(t as int, 1) <= y + h,
    ensures
        final(surf).wf(),
        old(surf).same_geometry(&*final(surf)),
        final(surf)@ == old(surf).paint_seq(
            old(surf).paint_seq(
                old(surf).paint_seq(old(surf)@, WHITE, |px: int, py: int| in_rect(x as int, y as int, w as int, h as int, px,
                    py)),
                BLACK,
                |px: int, py: int| in_border(x as int, y as int, w as int, h as int, at_least(t as int, 1), px, py),
            ),
            accent,
            |px: int, py: int| in_rect(x as int, y as int, w as int, accent_h as int, px, py),
        ),
{
    let ghost s0 = *surf;
    surf.fill_rect(x as usize, y as usize, w as usize, h as usize, WHITE);
    let ghost s1 = *surf;
    border(surf, x, y, w, h, t, BLACK);
    let ghost s2 = *surf;
    surf.fill_rect(x as usize, y as usize, w as usize, accent_h as usize, accent);
    proof {
        s0.lemma_painted_is_paint_seq(s1@, WHITE, |px: int, py: int| (x as usize) <= px < (x as usize) + (w as usize)
            && (y as usize) <= py < (y as usize) + (h as usize));
        s1.lemma_painted_is_paint_seq(s2@, BLACK, |px: int, py: int| in_border(x as int, y as int, w as int, h as int,
            at_least(t as int, 1), px, py));
        s2.lemma_painted_is_paint_seq(surf@, accent, |px: int, py: int| (x as usize) <= px < (x as usize) + (w as usize)
            && (y as usize) <= py < (y as usize) + (accent_h as usize));
        assert(s1@ =~= s0.paint_seq(s0@, WHITE, |px: int, py: int| in_rect(x as int, y as int, w as int, h as int, px, py)));
        assert(s2@ =~= s0.paint_seq(s1@, BLACK, |px: int, py: int| in_border(x as int, y as int, w as int, h as int,
            at_least(t as int, 1), px, py)));
        assert(surf@ =~= s0.paint_seq(s2@, accent, |px: int, py: int| in_rect(x as int, y as int, w as int, accent_h as int,
            px, py)));
    }
}

/// The accent of the game-over card: green for a win, gray for a loss.
pub fn gameover_accent(won: bool) -> (c: u16)
    ensures
        c == if won {
            C_CORRECT
        } else {
            C_ABSENT
        },
{
    if won {
        C_CORRECT
    } else {
        C_ABSENT
    }
}

} // verus!
