use inkwordle::surface::{brush_line_fits, expand565, PixFmt, Surface, BLACK, WHITE};

fn s565(w: usize, h: usize) -> Surface {
    Surface::new(vec![0u8; w * h * 2], w, h, w * 2, PixFmt::Rgb565)
}

fn s32(w: usize, h: usize) -> Surface {
    Surface::new(vec![0u8; w * h * 4], w, h, w * 4, PixFmt::Rgb32)
}

#[test]
fn expand565_widens_channels() {
    assert_eq!(expand565(0xFFFF), (255, 255, 255));
    assert_eq!(expand565(0x0000), (0, 0, 0));
    assert_eq!(expand565(0xF800), (255, 0, 0));
    assert_eq!(expand565(0x07E0), (0, 255, 0));
    assert_eq!(expand565(0x001F), (0, 0, 255));
    // 5-bit 16 -> (16*255+15)/31 = 132
    assert_eq!(expand565(16 << 11).0, 132);
}

#[test]
fn put_px_writes_little_endian_565() {
    let mut s = s565(4, 3);
    s.put_px(1, 2, 0xABCD);
    let i = 2 * 8 + 1 * 2;
    assert_eq!(s.buf[i], 0xCD);
    assert_eq!(s.buf[i + 1], 0xAB);
    assert_eq!(s.buf.iter().filter(|&&b| b != 0).count(), 2);
    // off-surface writes are ignored
    s.put_px(-1, 0, 0xFFFF);
    s.put_px(4, 0, 0xFFFF);
    s.put_px(0, 3, 0xFFFF);
    assert_eq!(s.buf.iter().filter(|&&b| b != 0).count(), 2);
}

#[test]
fn put_px_writes_bgra_32() {
    let mut s = s32(2, 2);
    s.put_px(1, 1, 0xF800);
    let i = 1 * 8 + 4;
    assert_eq!(&s.buf[i..i + 4], &[0, 0, 255, 0xFF]);
}

#[test]
fn fill_rect_clips() {
    let mut s = s565(5, 4);
    s.fill_rect(3, 2, 10, 10, WHITE);
    for y in 0..4 {
        for x in 0..5 {
            let v = s.buf[y * 10 + x * 2];
            assert_eq!(v, if x >= 3 && y >= 2 { 0xFF } else { 0 });
        }
    }
    // empty rectangles paint nothing
    let before = s.buf.clone();
    s.fill_rect(0, 0, 0, 3, WHITE);
    s.fill_rect(7, 0, 2, 3, WHITE);
    assert_eq!(s.buf, before);
}

#[test]
fn luma_reads_green() {
    let mut s = s565(3, 1);
    s.put_px(0, 0, 0x07E0);
    assert_eq!(s.luma(0, 0), 255);
    assert_eq!(s.luma(1, 0), 0);
    assert_eq!(s.luma(-1, 0), 255);
    assert_eq!(s.luma(0, 5), 255);
    let mut t = s32(2, 1);
    t.put_px(1, 0, 0x07E0);
    assert_eq!(t.luma(1, 0), 255);
    assert_eq!(t.luma(0, 0), 0);
}

#[test]
fn invert_rect_inverts_rgb_only() {
    let mut s = s32(2, 2);
    s.invert_rect(0, 0, 1, 1);
    assert_eq!(&s.buf[0..4], &[255, 255, 255, 0]);
    assert_eq!(&s.buf[4..8], &[0, 0, 0, 0]);
    let mut t = s565(2, 2);
    t.invert_rect(1, 1, 5, 5);
    assert_eq!(&t.buf[6..8], &[255, 255]);
    assert_eq!(&t.buf[0..6], &[0, 0, 0, 0, 0, 0]);
}

#[test]
fn copy_then_paste_restores() {
    let mut s = s565(6, 5);
    s.fill_rect(1, 1, 3, 2, 0x1234);
    s.put_px(2, 1, 0xBEEF);
    let saved = s.copy_rect(1, 1, 3, 2);
    assert_eq!(saved.len(), 3 * 2 * 2);
    assert_eq!(&saved[2..4], &[0xEF, 0xBE]);
    let before = s.buf.clone();
    s.fill_rect(0, 0, 6, 5, BLACK);
    s.paste_rect(1, 1, 3, 2, &saved);
    for y in 0..5 {
        for x in 0..6 {
            let i = y * 12 + x * 2;
            if (1..4).contains(&x) && (1..3).contains(&y) {
                assert_eq!(&s.buf[i..i + 2], &before[i..i + 2]);
            } else {
                assert_eq!(&s.buf[i..i + 2], &[0, 0]);
            }
        }
    }
}

#[test]
fn paste_refuses_short_data() {
    let mut s = s565(4, 4);
    let before = s.buf.clone();
    s.paste_rect(0, 0, 2, 2, &[1, 2, 3]);
    assert_eq!(s.buf, before);
}

#[test]
fn copy_rect_clips_to_surface() {
    let s = s565(4, 3);
    assert_eq!(s.copy_rect(2, 1, 10, 10).len(), 2 * 2 * 2);
    assert_eq!(s.copy_rect(4, 3, 5, 5).len(), 0);
}

#[test]
fn stamp_draws_disk() {
    let mut s = s565(9, 9);
    s.stamp(4, 4, 2, WHITE);
    let mut inked = 0;
    for y in 0..9i32 {
        for x in 0..9i32 {
            let on = s.luma(x, y) == 255;
            let d = (x - 4) * (x - 4) + (y - 4) * (y - 4);
            assert_eq!(on, d <= 4, "pixel {x},{y}");
            if on {
                inked += 1;
            }
        }
    }
    assert_eq!(inked, 13);
    // a negative radius stamps nothing
    let mut t = s565(3, 3);
    t.stamp(1, 1, -1, WHITE);
    assert!(t.buf.iter().all(|&b| b == 0));
}

#[test]
fn brush_line_stamps_along_segment() {
    let mut s = s565(20, 5);
    s.brush_line(1, 2, 18, 2, 0, WHITE);
    for x in 0..20 {
        assert_eq!(s.luma(x, 2) == 255, (1..=18).contains(&x));
    }
    assert_eq!(s.luma(5, 1), 0);
}

#[test]
fn brush_line_far_off_the_surface() {
    // Far from the origin, short strokes and large negative radii are fine.
    assert!(brush_line_fits(30000, 5, 30001, 5, 2));
    assert!(brush_line_fits(0, 0, 10, 10, -1_000_000));
    let mut s = s565(4, 4);
    s.brush_line(30000, 5, 30001, 5, 2, WHITE);
    s.brush_line(0, 0, 3, 3, -1_000_000, WHITE);
    assert!(s.buf.iter().all(|&b| b == 0));
    // The longest axis times the step count must fit i32.
    assert!(brush_line_fits(0, 0, 46340, 0, 0));
    assert!(!brush_line_fits(0, 0, 46341, 0, 0));
    // The stamps must stay within i32 coordinates.
    assert!(!brush_line_fits(i32::MAX, 0, i32::MAX, 0, 1));
    assert!(brush_line_fits(i32::MAX, 0, i32::MAX, 0, 0));
    assert!(!brush_line_fits(0, 0, 0, 0, i32::MIN));
    assert!(!brush_line_fits(0, 0, 0, 0, 32768));
}

#[test]
fn blit_mask_clips_and_emboldens() {
    let mut s = s565(4, 2);
    let mask = [true, false, false, true];
    s.blit_mask(&mask, 2, 2, -1, 0, WHITE, true);
    // row 0: mask col 0 at x=-1 (clipped), bold at x=0
    assert_eq!(s.luma(0, 0), 255);
    assert_eq!(s.luma(1, 0), 0);
    // row 1: mask col 1 at x=0, bold at x=1
    assert_eq!(s.luma(0, 1), 255);
    assert_eq!(s.luma(1, 1), 255);
    assert_eq!(s.luma(2, 1), 0);
}

#[test]
fn bpp_matches_format() {
    assert_eq!(s565(1, 1).bpp(), 2);
    assert_eq!(s32(1, 1).bpp(), 4);
}

#[test]
fn zero_width_surface_draws_nothing() {
    let mut s = Surface::new(Vec::new(), 0, 3, 0, PixFmt::Rgb565);
    s.fill_rect(0, 0, 5, 5, WHITE);
    s.put_px(0, 0, WHITE);
    assert_eq!(s.luma(0, 0), 255);
    assert!(s.copy_rect(0, 0, 1, 1).is_empty());
}

#[test]
fn empty_mask_of_any_width_changes_nothing() {
    let mut s = s565(3, 3);
    s.fill_rect(0, 0, 3, 3, BLACK);
    let before = s.copy_rect(0, 0, 3, 3);
    s.blit_mask(&[], usize::MAX, 0, 0, 0, WHITE, true);
    assert_eq!(s.copy_rect(0, 0, 3, 3), before);
}

#[test]
fn luma_reads_back_the_green_of_put_px() {
    for c in [0u16, 0xFFFF, 0x07E0, 0xF81F, 0x1234, 0xABCD, 0x0020] {
        let mut s = s565(3, 3);
        s.put_px(1, 2, c);
        assert_eq!(s.luma(1, 2) as u32, ((c as u32 >> 5) & 0x3f) * 255 / 63);
        let mut t = s32(3, 3);
        t.put_px(2, 0, c);
        assert_eq!(t.luma(2, 0), expand565(c).1);
    }
}
