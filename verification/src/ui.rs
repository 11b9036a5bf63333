//! Minimal on-surface UI: bordered boxes and tappable buttons with hit-testing.

use vstd::prelude::*;
use crate::surface::{Surface, BLACK, FADED, WHITE};

verus! {

/// `v` clamped below at `lo`.
pub open spec fn at_least(v: int, lo: int) -> int {
    if v >= lo { v } else { lo }
}

/// Pixel `(px, py)` lies in the `t`-px frame around `[x, x + w) x [y, y + h)`.
pub open spec fn in_border(x: int, y: int, w: int, h: int, t: int, px: int, py: int) -> bool {
    ||| (x <= px < x + w && y <= py < y + t)
    ||| (x <= px < x + w && y + h - t <= py < y + h)
    ||| (x <= px < x + t && y <= py < y + h)
    ||| (x + w - t <= px < x + w && y <= py < y + h)
}

/// A `t`-px border around a rectangle. Negative coordinates and sizes count
/// as 0, a thickness below 1 as 1.
pub fn border(surf: &mut Surface, x: i32, y: i32, w: i32, h: i32, t: i32, color: u16)
    requires
        old(surf).wf(),
        at_least(y as int, 0) + at_least(h as int, 0) >= at_least(t as int, 1),
        at_least(x as int, 0) + at_least(w as int, 0) >= at_least(t as int, 1),
    ensures
        final(surf).wf(),
        old(surf).same_geometry(&*final(surf)),
        old(surf).painted(final(surf)@, color, |px: int, py: int| in_border(at_least(x as int, 0), at_least(y as int, 0),
            at_least(w as int, 0), at_least(h as int, 0), at_least(t as int, 1), px, py)),
{
    let x = if x >= 0 { x as usize } else { 0usize };
    let y = if y >= 0 { y as usize } else { 0usize };
    let w = if w >= 0 { w as usize } else { 0usize };
    let h = if h >= 0 { h as usize } else { 0usize };
    let t = if t >= 1 { t as usize } else { 1usize };
    let ghost s0 = *surf;
    surf.fill_rect(x, y, w, t, color);
    let ghost s1 = *surf;
    surf.fill_rect(x, y + h - t, w, t, color);
    let ghost s2 = *surf;
    surf.fill_rect(x, y, t, h, color);
    let ghost s3 = *surf;
    surf.fill_rect(x + w - t, y, t, h, color);
    proof {
        let p1 = |px: int, py: int| x <= px < x + w && y <= py < y + t;
        let p2 = |px: int, py: int| x <= px < x + w && y + h - t <= py < y + h - t + t;
        let p3 = |px: int, py: int| x <= px < x + t && y <= py < y + h;
        let p4 = |px: int, py: int| x + w - t <= px < x + w - t + t && y <= py < y + h;
        s0.lemma_paint_compose(&s1, s2@, color, p1, p2);
        s0.lemma_paint_compose(&s2, s3@, color, |px: int, py: int| p1(px, py) || p2(px, py), p3);
        s0.lemma_paint_compose(&s3, surf@, color, |px: int, py: int| (p1(px, py) || p2(px, py)) || p3(px, py), p4);
        s0.lemma_paint_same(surf@, color,
            |px: int, py: int| ((p1(px, py) || p2(px, py)) || p3(px, py)) || p4(px, py),
            |px: int, py: int| in_border(x as int, y as int, w as int, h as int, t as int, px, py));
    }
}

pub struct Button {
    pub x: i32,
    pub y: i32,
    pub w: i32,
    pub h: i32,
    pub label: String,
}

impl Button {
    pub fn new(x: i32, y: i32, w: i32, h: i32, label: &str) -> (b: Self)
        ensures
            b.x == x,
            b.y == y,
            b.w == w,
            b.h == h,
            b.label@ == label@,
    {
        Button { x, y, w, h, label: label.to_string() }
    }

    /// The tap `(px, py)` falls inside the button.
    pub open spec fn contains(&self, px: int, py: int) -> bool {
        self.x <= px < self.x + self.w && self.y <= py < self.y + self.h
    }

    /// The button's box: solid black when `filled` (the primary action),
    /// otherwise white with a 3 px gray frame. The label is drawn over it.
    pub fn draw_frame(&self, surf: &mut Surface, filled: bool)
        requires
            old(surf).wf(),
            0 <= self.x <= 1_000_000,
            0 <= self.y <= 1_000_000,
            3 <= self.w <= 1_000_000,
            3 <= self.h <= 1_000_000,
        ensures
            final(surf).wf(),
            old(surf).same_geometry(&*final(surf)),
            final(surf)@ == if filled {
                old(surf).paint_seq(old(surf)@, BLACK, |px: int, py: int| self.contains(px, py))
            } else {
                old(surf).paint_seq(
                    old(surf).paint_seq(old(surf)@, WHITE, |px: int, py: int| self.contains(px, py)),
                    FADED,
                    |px: int, py: int| in_border(self.x as int, self.y as int, self.w as int, self.h as int, 3, px, py),
                )
            },
    {
        let ghost s0 = *surf;
        let (x, y, w, h) = (self.x as usize, self.y as usize, self.w as usize, self.h as usize);
        if filled {
            surf.fill_rect(x, y, w, h, BLACK);
            proof {
                s0.lemma_painted_is_paint_seq(surf@, BLACK, |px: int, py: int| x <= px < x + w && y <= py < y + h);
                assert(surf@ =~= s0.paint_seq(s0@, BLACK, |px: int, py: int| self.contains(px, py)));
            }
        } else {
            surf.fill_rect(x, y, w, h, WHITE);
            let ghost s1 = *surf;
            border(surf, self.x, self.y, self.w, self.h, 3, FADED);
            proof {
                s0.lemma_painted_is_paint_seq(s1@, WHITE, |px: int, py: int| x <= px < x + w && y <= py < y + h);
                s1.lemma_painted_is_paint_seq(surf@, FADED, |px: int, py: int| in_border(self.x as int, self.y as int,
                    self.w as int, self.h as int, 3, px, py));
                assert(s1@ =~= s0.paint_seq(s0@, WHITE, |px: int, py: int| self.contains(px, py)));
                assert(surf@ =~= s0.paint_seq(s1@, FADED, |px: int, py: int| in_border(self.x as int, self.y as int,
                    self.w as int, self.h as int, 3, px, py)));
            }
        }
    }

    pub fn hit(&self, px: i32, py: i32) -> (r: bool)
        requires
            self.x + self.w <= i32::MAX,
            self.y + self.h <= i32::MAX,
            i32::MIN <= self.x + self.w,
            i32::MIN <= self.y + self.h,
        ensures
            r == self.contains(px as int, py as int),
    {
        px >= self.x && px < self.x + self.w && py >= self.y && py < self.y + self.h
    }
}

} // verus!
