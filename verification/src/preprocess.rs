//! The integer front end of glyph preprocessing: find the inked box of a
//! dense `u8` ink plane (0 = paper, 255 = full stroke) and reject blank
//! drawings. Scaling the crop onto the model canvas is done by the recognizer.

use vstd::prelude::*;

verus! {

/// Side of the square canvas the recognizer reads.
pub const CANVAS: usize = 28;
/// A pixel counts as ink above this value (about 0.035 on the 0..1 scale).
pub const INK_THRESHOLD_U8: u8 = 9;
/// A drawing whose total ink is below this is blank (about 0.5 on the 0..1 scale).
pub const MIN_TOTAL_INK: u32 = 128;

/// Glyph size on the canvas for each recognizer.
pub const GLYPH_PRIMARY: usize = 25;
pub const GLYPH_DIGIT: usize = 20;
pub const GLYPH_BALANCED: usize = 26;

/// The drawing holds too little ink to recognize.
#[derive(Debug)]
pub struct BlankDrawing;

/// A crop of the plane: rows `top..bottom`, columns `left..right`.
#[derive(Debug, Clone, Copy, PartialEq, Eq, Structural)]
pub struct Crop {
    pub top: usize,
    pub left: usize,
    pub bottom: usize,
    pub right: usize,
}

/// Pixel `(x, y)` of a plane `w` wide is ink.
pub open spec fn inked_at(ink: Seq<u8>, w: int, x: int, y: int) -> bool {
    ink[y * w + x] > INK_THRESHOLD_U8
}

/// Some pixel of the `w` x `h` plane is ink.
pub open spec fn any_ink(ink: Seq<u8>, w: int, h: int) -> bool {
    exists|x: int, y: int| 0 <= x < w && 0 <= y < h && #[trigger] inked_at(ink, w, x, y)
}

/// The sum of the first `n` pixels of row `y`.
pub open spec fn row_sum(ink: Seq<u8>, w: int, y: int, n: int) -> int
    decreases n,
{
    if n <= 0 {
        0
    } else {
        row_sum(ink, w, y, n - 1) + ink[y * w + n - 1]
    }
}

/// The sum of the first `rows` rows.
pub open spec fn plane_sum(ink: Seq<u8>, w: int, rows: int) -> int
    decreases rows,
{
    if rows <= 0 {
        0
    } else {
        plane_sum(ink, w, rows - 1) + row_sum(ink, w, rows - 1, w)
    }
}

/// `(top, left, bottom, right)` are the first and last inked row and column.
pub open spec fn is_bounds(ink: Seq<u8>, w: int, h: int, b: (int, int, int, int)) -> bool {
    &&& 0 <= b.0 <= b.2 < h
    &&& 0 <= b.1 <= b.3 < w
    &&& forall|x: int, y: int| 0 <= x < w && 0 <= y < h && #[trigger] inked_at(ink, w, x, y)
        ==> b.0 <= y <= b.2 && b.1 <= x <= b.3
    &&& exists|x: int| 0 <= x < w && #[trigger] inked_at(ink, w, x, b.0)
    &&& exists|x: int| 0 <= x < w && #[trigger] inked_at(ink, w, x, b.2)
    &&& exists|y: int| 0 <= y < h && #[trigger] inked_at(ink, w, b.1, y)
    &&& exists|y: int| 0 <= y < h && #[trigger] inked_at(ink, w, b.3, y)
}

/// The inked bounds of the plane (meaningful when it holds ink).
pub open spec fn ink_bounds(ink: Seq<u8>, w: int, h: int) -> (int, int, int, int) {
    choose|b: (int, int, int, int)| is_bounds(ink, w, h, b)
}

/// The crop around bounds `b`: one pixel of margin before, two after (the
/// bounds are inclusive), clipped to the plane.
pub open spec fn padded(b: (int, int, int, int), w: int, h: int) -> Crop {
    Crop {
        top: (if b.0 >= 1 { b.0 - 1 } else { 0 }) as usize,
        left: (if b.1 >= 1 { b.1 - 1 } else { 0 }) as usize,
        bottom: (if b.2 + 2 <= h { b.2 + 2 } else { h }) as usize,
        right: (if b.3 + 2 <= w { b.3 + 2 } else { w }) as usize,
    }
}

/// Inked bounds are unique.
proof fn lemma_bounds_unique(ink: Seq<u8>, w: int, h: int, a: (int, int, int, int), b: (int, int, int, int))
    requires
        is_bounds(ink, w, h, a),
        is_bounds(ink, w, h, b),
    ensures
        a == b,
{
    let x0 = choose|x: int| 0 <= x < w && #[trigger] inked_at(ink, w, x, b.0);
    let x2 = choose|x: int| 0 <= x < w && #[trigger] inked_at(ink, w, x, b.2);
    let y1 = choose|y: int| 0 <= y < h && #[trigger] inked_at(ink, w, b.1, y);
    let y3 = choose|y: int| 0 <= y < h && #[trigger] inked_at(ink, w, b.3, y);
    let u0 = choose|x: int| 0 <= x < w && #[trigger] inked_at(ink, w, x, a.0);
    let u2 = choose|x: int| 0 <= x < w && #[trigger] inked_at(ink, w, x, a.2);
    let v1 = choose|y: int| 0 <= y < h && #[trigger] inked_at(ink, w, a.1, y);
    let v3 = choose|y: int| 0 <= y < h && #[trigger] inked_at(ink, w, a.3, y);
    assert(inked_at(ink, w, x0, b.0));
    assert(inked_at(ink, w, x2, b.2));
    assert(inked_at(ink, w, b.1, y1));
    assert(inked_at(ink, w, b.3, y3));
    assert(inked_at(ink, w, u0, a.0));
    assert(inked_at(ink, w, u2, a.2));
    assert(inked_at(ink, w, a.1, v1));
    assert(inked_at(ink, w, a.3, v3));
}

/// The pixel `(xx, yy)` was visited before `(x, y)` in row-major order.
pub open spec fn before(xx: int, yy: int, x: int, y: int) -> bool {
    yy < y || (yy == y && xx < x)
}

/// The scan state after visiting every pixel before `(x, y)`: the sentinel
/// `usize::MAX` in `top` means no ink yet; otherwise `(top, left, bottom,
/// right)` bound the ink seen so far and each side is attained.
pub open spec fn scanned(ink: Seq<u8>, w: int, x: int, y: int, t: usize, l: usize, b: usize, r: usize) -> bool {
    if t == usize::MAX {
        &&& l == usize::MAX
        &&& b == 0
        &&& r == 0
        &&& forall|xx: int, yy: int| 0 <= xx < w && 0 <= yy && before(xx, yy, x, y) ==> !#[trigger] inked_at(ink, w, xx, yy)
    } else {
        &&& forall|xx: int, yy: int| 0 <= xx < w && 0 <= yy && before(xx, yy, x, y) && #[trigger] inked_at(ink, w, xx, yy)
            ==> t <= yy <= b && l <= xx <= r
        &&& exists|xx: int| 0 <= xx < w && before(xx, t as int, x, y) && #[trigger] inked_at(ink, w, xx, t as int)
        &&& exists|xx: int| 0 <= xx < w && before(xx, b as int, x, y) && #[trigger] inked_at(ink, w, xx, b as int)
        &&& exists|yy: int| 0 <= yy && before(l as int, yy, x, y) && #[trigger] inked_at(ink, w, l as int, yy)
        &&& exists|yy: int| 0 <= yy && before(r as int, yy, x, y) && #[trigger] inked_at(ink, w, r as int, yy)
        &&& l < w
        &&& r < w
    }
}

proof fn lemma_row_sum_bound(ink: Seq<u8>, w: int, y: int, n: int)
    requires
        0 <= y,
        0 <= n <= w,
        (y + 1) * w <= ink.len(),
    ensures
        0 <= row_sum(ink, w, y, n) <= 255 * n,
    decreases n,
{
    if n > 0 {
        lemma_row_sum_bound(ink, w, y, n - 1);
        assert(y * w + n - 1 < (y + 1) * w) by (nonlinear_arith)
            requires
                0 < n <= w,
        ;
    }
}

proof fn lemma_plane_sum_bound(ink: Seq<u8>, w: int, rows: int)
    requires
        0 <= rows,
        0 <= w,
        rows * w <= ink.len(),
    ensures
        0 <= plane_sum(ink, w, rows) <= 255 * (rows * w),
    decreases rows,
{
    if rows > 0 {
        assert((rows - 1) * w <= rows * w) by (nonlinear_arith)
            requires
                0 < rows,
                0 <= w,
        ;
        lemma_plane_sum_bound(ink, w, rows - 1);
        lemma_row_sum_bound(ink, w, rows - 1, w);
        assert(255 * ((rows - 1) * w) + 255 * w == 255 * (rows * w)) by (nonlinear_arith);
    }
}

/// The crop to recognize from a `w` x `h` ink plane: the inked box with a
/// margin, or `BlankDrawing` when no pixel is ink or the total ink is too low.
pub fn crop_box(ink: &[u8], w: usize, h: usize) -> (r: Result<Crop, BlankDrawing>)
    requires
        ink@.len() == w * h,
        255 * (w * h) <= u32::MAX,
    ensures
        match r {
            Ok(c) => any_ink(ink@, w as int, h as int) && plane_sum(ink@, w as int, h as int) >= MIN_TOTAL_INK
                && is_bounds(ink@, w as int, h as int, ink_bounds(ink@, w as int, h as int))
                && c == padded(ink_bounds(ink@, w as int, h as int), w as int, h as int),
            Err(_) => !any_ink(ink@, w as int, h as int) || plane_sum(ink@, w as int, h as int) < MIN_TOTAL_INK,
        },
{
    let ghost s = ink@;
    let ghost (gw, gh) = (w as int, h as int);
    let mut top: usize = usize::MAX;
    let mut left: usize = usize::MAX;
    let mut bottom: usize = 0;
    let mut right: usize = 0;
    let mut total: u32 = 0;
    let mut y: usize = 0;
    let mut row: usize = 0;
    while y < h
        invariant
            s == ink@,
            gw == w,
            gh == h,
            s.len() == w * h,
            255 * (w * h) <= u32::MAX,
            y <= h,
            row == y * w,
            total == plane_sum(s, gw, y as int),
            scanned(s, gw, 0, y as int, top, left, bottom, right),
        decreases h - y,
    {
        assert((y + 1) * w <= w * h) by (nonlinear_arith)
            requires
                y < h,
        ;
        assert(y * w <= w * h) by (nonlinear_arith)
            requires
                y < h,
        ;
        proof {
            lemma_plane_sum_bound(s, gw, y as int);
        }
        let mut x: usize = 0;
        while x < w
            invariant
                s == ink@,
                gw == w,
                gh == h,
                s.len() == w * h,
                (y + 1) * w <= w * h,
                255 * (w * h) <= u32::MAX,
                y < h,
                x <= w,
                row == y * w,
                0 <= plane_sum(s, gw, y as int) <= 255 * (y * w),
                total == plane_sum(s, gw, y as int) + row_sum(s, gw, y as int, x as int),
                scanned(s, gw, x as int, y as int, top, left, bottom, right),
            decreases w - x,
        {
            proof {
                lemma_row_sum_bound(s, gw, y as int, x as int);
                assert(255 * (y * w) + 255 * x + 255 <= 255 * (w * h)) by (nonlinear_arith)
                    requires
                        x < w,
                        (y + 1) * w <= w * h,
                ;
            }
            let v = ink[row + x];
            total = total + v as u32;
            if v > INK_THRESHOLD_U8 {
                assert(inked_at(s, gw, x as int, y as int));
                if top == usize::MAX {
                    top = y;
                    left = x;
                    bottom = y;
                    right = x;
                } else {
                    if x < left {
                        left = x;
                    }
                    bottom = y;
                    if x > right {
                        right = x;
                    }
                }
            }
            proof {
                let (nx, ny) = (x as int + 1, y as int);
                assert forall|xx: int, yy: int| 0 <= xx < gw && 0 <= yy && before(xx, yy, nx, ny) && #[trigger] inked_at(s, gw, xx, yy)
                    && top != usize::MAX implies top <= yy <= bottom && left <= xx <= right by {
                    if !(xx == x && yy == y) {
                        assert(before(xx, yy, x as int, y as int));
                    }
                }
            }
            x += 1;
        }
        proof {
            assert forall|xx: int, yy: int| 0 <= xx < gw && 0 <= yy && before(xx, yy, 0, y as int + 1)
                implies before(xx, yy, x as int, y as int) by {}
            assert(plane_sum(s, gw, y as int + 1) == plane_sum(s, gw, y as int) + row_sum(s, gw, y as int, gw));
        }
        assert((y + 1) * w == y * w + w) by (nonlinear_arith);
        row = row + w;
        y += 1;
    }
    proof {
        assert forall|xx: int, yy: int| 0 <= xx < gw && 0 <= yy < gh implies before(xx, yy, 0, gh) by {}
    }
    if top == usize::MAX || total < MIN_TOTAL_INK {
        return Err(BlankDrawing);
    }
    proof {
        let b = (top as int, left as int, bottom as int, right as int);
        let x0 = choose|xx: int| 0 <= xx < gw && before(xx, b.0, 0, gh) && #[trigger] inked_at(s, gw, xx, b.0);
        let x2 = choose|xx: int| 0 <= xx < gw && before(xx, b.2, 0, gh) && #[trigger] inked_at(s, gw, xx, b.2);
        let y1 = choose|yy: int| 0 <= yy && before(b.1, yy, 0, gh) && #[trigger] inked_at(s, gw, b.1, yy);
        let y3 = choose|yy: int| 0 <= yy && before(b.3, yy, 0, gh) && #[trigger] inked_at(s, gw, b.3, yy);
        assert(inked_at(s, gw, x0, b.0));
        assert(inked_at(s, gw, x2, b.2));
        assert(inked_at(s, gw, b.1, y1));
        assert(inked_at(s, gw, b.3, y3));
        assert(before(x2, b.2, 0, gh) && before(x0, b.0, 0, gh) && before(b.1, y1, 0, gh) && before(b.3, y3, 0, gh));
        assert(b.0 <= b.2 < gh);
        assert(b.1 <= b.3 < gw);
        assert(is_bounds(s, gw, gh, b));
        lemma_bounds_unique(s, gw, gh, b, ink_bounds(s, gw, gh));
        assert(any_ink(s, gw, gh));
        assert(h <= 0x101_0101) by (nonlinear_arith)
            requires
                w >= 1,
                255 * (w * h) <= u32::MAX,
        ;
        assert(w <= 0x101_0101) by (nonlinear_arith)
            requires
                h >= 1,
                255 * (w * h) <= u32::MAX,
        ;
    }
    let t = if top >= 1 {
        top - 1
    } else {
        0
    };
    let l = if left >= 1 {
        left - 1
    } else {
        0
    };
    let b = if bottom + 2 <= h {
        bottom + 2
    } else {
        h
    };
    let rt = if right + 2 <= w {
        right + 2
    } else {
        w
    };
    Ok(Crop { top: t, left: l, bottom: b, right: rt })
}

} // verus!

verus! {

/// The crop lies inside the plane, is not empty, and holds every inked pixel.
pub proof fn lemma_crop_holds_ink(ink: Seq<u8>, w: int, h: int, b: (int, int, int, int))
    requires
        is_bounds(ink, w, h, b),
        h <= usize::MAX,
        w <= usize::MAX,
    ensures
        ({
            let c = padded(b, w, h);
            &&& c.top < c.bottom <= h
            &&& c.left < c.right <= w
            &&& forall|x: int, y: int| 0 <= x < w && 0 <= y < h && #[trigger] inked_at(ink, w, x, y) ==> c.top <= y
                < c.bottom && c.left <= x < c.right
        }),
{
}

} // verus!
