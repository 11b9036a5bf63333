use inkwordle::game::{Game, Mark, State};
use inkwordle::render::{
    buttons, cell_xy, confirm_no_hit, confirm_yes_hit, draw_lock, fill, gameover_new_hit, help_hit, hint_card_hit,
    hint_close_hit, hint_hit, quit_hit, rgb565, C_ABSENT, C_BORDER, C_CORRECT, C_DIM, C_KEYBG, C_PRESENT, GRID_BOTTOM,
    GRID_W, GRID_X0, TRACK_X0,
};
use inkwordle::surface::{PixFmt, Surface, WHITE};
use inkwordle::ui::{border, Button};
use inkwordle::ink::cell_at;

#[test]
fn palette_is_rgb565_of_the_design_colours() {
    assert_eq!(rgb565(0x3a, 0xa8, 0x56), C_CORRECT);
    assert_eq!(rgb565(0xe2, 0xa4, 0x22), C_PRESENT);
    assert_eq!(rgb565(0x86, 0x8b, 0x92), C_ABSENT);
    assert_eq!(rgb565(0xe8, 0xe8, 0xe8), C_KEYBG);
    assert_eq!(rgb565(0x9a, 0x9e, 0xa4), C_BORDER);
    assert_eq!(rgb565(0x6c, 0x72, 0x7a), C_DIM);
    assert_eq!(rgb565(255, 255, 255), 0xFFFF);
    assert_eq!(rgb565(0, 0, 0), 0);
}

#[test]
fn grid_geometry() {
    assert_eq!(GRID_W, 1080);
    assert_eq!(GRID_X0, 270);
    assert_eq!(GRID_BOTTOM, 1568);
    assert_eq!(TRACK_X0, 48);
    assert_eq!(cell_xy(0, 0), (270, 268));
    assert_eq!(cell_xy(5, 4), (270 + 4 * 220, 268 + 5 * 220));
}

#[test]
fn fill_colours() {
    assert_eq!(fill(Mark::Correct), C_CORRECT);
    assert_eq!(fill(Mark::Present), C_PRESENT);
    assert_eq!(fill(Mark::Absent), C_ABSENT);
    assert_eq!(fill(Mark::Empty), WHITE);
}

#[test]
fn control_hit_tests() {
    assert!(quit_hit(1420, 44) && quit_hit(1571, 119) && !quit_hit(1572, 44) && !quit_hit(1420, 120));
    assert!(help_hit(48, 44) && !help_hit(47, 44) && !help_hit(218, 50));
    assert!(hint_hit(48, 132) && hint_hit(197, 195) && !hint_hit(198, 132));
    assert!(hint_close_hit(630, 1010) && !hint_close_hit(990, 1010));
    assert!(hint_card_hit(310, 720) && !hint_card_hit(1310, 720) && !hint_card_hit(309, 720));
    assert!(gameover_new_hit(550, 1170) && !gameover_new_hit(550, 1310));
    assert!(confirm_no_hit(280, 1020) && !confirm_no_hit(780, 1020));
    assert!(confirm_yes_hit(820, 1020) && !confirm_yes_hit(819, 1020));
}

#[test]
fn control_bar_buttons() {
    let b = buttons(true);
    assert_eq!((b[0].x, b[0].w, b[0].label.as_str()), (150, 390, "Delete"));
    assert_eq!((b[1].x, b[1].w, b[1].label.as_str()), (580, 460, "Enter"));
    assert_eq!((b[2].x, b[2].w, b[2].label.as_str()), (1080, 390, "New"));
    assert!(b[1].hit(600, 1950));
    assert!(!b[1].hit(1040, 1950));
    assert_eq!(buttons(false)[2].x, 1080);
}

#[test]
fn button_hit_is_half_open() {
    let b = Button::new(10, 20, 30, 40, "x");
    assert!(b.hit(10, 20));
    assert!(b.hit(39, 59));
    assert!(!b.hit(40, 20));
    assert!(!b.hit(10, 60));
    assert_eq!(b.label, "x");
}

#[test]
fn border_frames_rectangle() {
    let mut s = Surface::new(vec![0u8; 8 * 8 * 2], 8, 8, 16, PixFmt::Rgb565);
    border(&mut s, 1, 1, 6, 6, 1, WHITE);
    for y in 0..8i32 {
        for x in 0..8i32 {
            let on = (1..7).contains(&x) && (1..7).contains(&y) && (x == 1 || x == 6 || y == 1 || y == 6);
            assert_eq!(s.luma(x, y) == 255, on, "{x},{y}");
        }
    }
}

#[test]
fn lock_draws_inside_its_box() {
    let mut s = Surface::new(vec![0u8; 200 * 200 * 2], 200, 200, 400, PixFmt::Rgb565);
    draw_lock(&mut s, 100, 100, 0x07E0);
    // body centre is colour, keyhole is white, far corner untouched
    assert_eq!(s.luma(70, 100), 255);
    assert_eq!(s.buf[(114 * 200 + 100) * 2], 0xFF);
    assert_eq!(s.luma(0, 0), 0);
}

#[test]
fn cell_at_maps_active_row() {
    let mut g = Game::new(*b"crane");
    assert_eq!(cell_at(&g, 270, 268), Some(0));
    assert_eq!(cell_at(&g, 258, 256), Some(0));
    assert_eq!(cell_at(&g, 257, 300), None);
    assert_eq!(cell_at(&g, 270 + 4 * 220 + 100, 300), Some(4));
    assert_eq!(cell_at(&g, 1361, 300), Some(4));
    assert_eq!(cell_at(&g, 1362, 300), None);
    assert_eq!(cell_at(&g, 500, 268 + 220), None);
    g.submit(*b"fizzy");
    assert_eq!(cell_at(&g, 500, 268 + 220), Some(1));
    g.state = State::Won;
    assert_eq!(cell_at(&g, 500, 268 + 220), None);
}
