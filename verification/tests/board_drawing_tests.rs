use inkwordle::game::{Game, Mark, State};
use inkwordle::render::{
    draw_card, draw_cell_frame, gameover_accent, grid_cell, rgb565, status, tracker_fill, tracker_tile, Status, C_ABSENT,
    C_ACTIVE, C_BORDER, C_CORRECT, C_FRAME, C_KEYBG, C_PANEL,
};
use inkwordle::session::{grow_ink_box, ink_refresh_rect, poll_ms};
use inkwordle::surface::{PixFmt, Surface, BLACK, FADED, WHITE};
use inkwordle::ui::Button;

fn s565(w: usize, h: usize) -> Surface {
    Surface::new(vec![0u8; w * h * 2], w, h, w * 2, PixFmt::Rgb565)
}

fn px(s: &Surface, x: usize, y: usize) -> u16 {
    let i = y * s.stride + x * 2;
    s.buf[i] as u16 | (s.buf[i + 1] as u16) << 8
}

#[test]
fn frame_colours_are_rgb565_of_the_design_colours() {
    assert_eq!(rgb565(0x50, 0x54, 0x58), C_FRAME);
    assert_eq!(rgb565(0xF4, 0xF6, 0xF8), C_PANEL);
}

#[test]
fn cell_frame_fills_then_frames() {
    let mut s = s565(210, 210);
    draw_cell_frame(&mut s, 5, 5, Mark::Correct, false);
    assert_eq!(px(&s, 100, 100), C_CORRECT);
    assert_eq!((px(&s, 5, 5), px(&s, 6, 100), px(&s, 204, 204)), (C_FRAME, C_FRAME, C_FRAME));
    assert_eq!(px(&s, 7, 7), C_CORRECT);
    assert_eq!((px(&s, 4, 4), px(&s, 205, 100)), (0, 0));
    draw_cell_frame(&mut s, 5, 5, Mark::Empty, true);
    assert_eq!((px(&s, 10, 10), px(&s, 11, 11), px(&s, 100, 100)), (C_ACTIVE, WHITE, WHITE));
    draw_cell_frame(&mut s, 5, 5, Mark::Empty, false);
    assert_eq!((px(&s, 7, 7), px(&s, 8, 8)), (C_BORDER, WHITE));
}

#[test]
fn grid_cells_show_guesses_row_and_blanks() {
    let mut g = Game::new(*b"crane");
    g.submit(*b"nacre");
    let letters = [Some(b'c'), None, Some(b'a'), None, None];
    assert_eq!(grid_cell(&g, &letters, 2, 0, 4), (Some(b'e'), Mark::Correct, false));
    assert_eq!(grid_cell(&g, &letters, 2, 0, 0), (Some(b'n'), Mark::Present, false));
    assert_eq!(grid_cell(&g, &letters, 2, 1, 2), (Some(b'a'), Mark::Empty, true));
    assert_eq!(grid_cell(&g, &letters, 2, 1, 1), (None, Mark::Empty, false));
    assert_eq!(grid_cell(&g, &letters, 2, 2, 0), (None, Mark::Empty, false));
    g.state = State::Won;
    assert_eq!(grid_cell(&g, &letters, 2, 1, 2), (None, Mark::Empty, false));
}

#[test]
fn tracker_tiles_and_colours() {
    assert_eq!(tracker_tile(0), (48, 1656));
    assert_eq!(tracker_tile(12), (48 + 12 * 118, 1656));
    assert_eq!(tracker_tile(13), (48, 1748));
    assert_eq!(tracker_tile(25), (48 + 12 * 118, 1748));
    assert_eq!(tracker_fill(Mark::Empty), C_KEYBG);
    assert_eq!(tracker_fill(Mark::Absent), C_ABSENT);
}

#[test]
fn status_line_follows_the_game() {
    let mut g = Game::new(*b"crane");
    assert_eq!(status(&g), Status::Guess(1));
    for _ in 0..5 {
        g.submit(*b"fizzy");
    }
    assert_eq!(status(&g), Status::Guess(6));
    g.submit(*b"fizzy");
    assert_eq!(status(&g), Status::WordWas);
    let mut g = Game::new(*b"crane");
    g.submit(*b"crane");
    assert_eq!(status(&g), Status::Solved);
}

#[test]
fn card_and_button_frames() {
    let mut s = s565(60, 40);
    draw_card(&mut s, 2, 2, 50, 30, 3, 5, C_CORRECT);
    assert_eq!((px(&s, 20, 3), px(&s, 20, 6), px(&s, 3, 20), px(&s, 20, 20)), (C_CORRECT, C_CORRECT, BLACK, WHITE));
    assert_eq!((px(&s, 1, 1), px(&s, 52, 10)), (0, 0));
    assert_eq!((gameover_accent(true), gameover_accent(false)), (C_CORRECT, C_ABSENT));
    let b = Button::new(4, 4, 20, 10, "Go");
    let mut s = s565(40, 20);
    b.draw_frame(&mut s, true);
    assert_eq!((px(&s, 4, 4), px(&s, 23, 13), px(&s, 24, 13)), (BLACK, BLACK, 0));
    b.draw_frame(&mut s, false);
    assert_eq!((px(&s, 4, 4), px(&s, 6, 6), px(&s, 7, 7)), (FADED, FADED, WHITE));
}

#[test]
fn ink_refresh_and_pacing() {
    let b = grow_ink_box(None, (100, 50), (90, 60));
    assert_eq!(b, (90, 50, 100, 60));
    let b = grow_ink_box(Some(b), (200, 5), (200, 5));
    assert_eq!(b, (90, 5, 200, 60));
    assert_eq!(ink_refresh_rect(b), (82, 0, 126, 68));
    assert_eq!(ink_refresh_rect((1615, 2150, 1620, 2160)), (1607, 2142, 13, 18));
    assert_eq!(poll_ms(true, true, true), 1);
    assert_eq!(poll_ms(false, true, true), 2);
    assert_eq!(poll_ms(false, false, true), 4);
    assert_eq!(poll_ms(false, false, false), 8);
}

#[test]
fn expanded_colours_pack_back_to_themselves() {
    for c in 0..=u16::MAX {
        let (r, g, b) = inkwordle::surface::expand565(c);
        assert_eq!(rgb565(r, g, b), c);
    }
    assert_eq!(rgb565(0xff, 0xff, 0xff), 0xFFFF);
    assert_eq!(rgb565(0, 0, 0), 0);
}

#[test]
fn card_with_no_frame_width_gets_a_one_pixel_frame() {
    let mut s = s565(10, 10);
    draw_card(&mut s, 1, 1, 6, 6, 0, 0, C_CORRECT);
    assert_eq!((px(&s, 1, 1), px(&s, 6, 6), px(&s, 2, 2), px(&s, 5, 5)), (BLACK, BLACK, WHITE, WHITE));
    assert_eq!((px(&s, 0, 0), px(&s, 7, 7)), (0, 0));
}
