//! The ink plane behind each grid cell: a dense `u8` image (0 = paper,
//! 255 = stroke) that strokes are stamped into and the recognizer reads,
//! plus locating the grid cell under a pen position.

use vstd::prelude::*;
use crate::surface::{in_disk, trunc_div};
use crate::game::{Game, State, COLS, ROWS};
use crate::render::{GRID_X0, GRID_Y0, GRID_W, STEP, CELL};

verus! {

/// `r` is the integer square root of `n`: the largest `r` with `r * r <= n`.
pub open spec fn is_isqrt(n: int, r: int) -> bool {
    0 <= r && r * r <= n < (r + 1) * (r + 1)
}

/// `t` squared.
pub open spec fn sq(t: int) -> int {
    t * t
}

proof fn lemma_newton_step(n: int, x: int, t: int)
    requires
        x >= 1,
        t >= 0,
        t * t <= n,
    ensures
        t <= (x + n / x) / 2,
{
    let q = n / x;
    vstd::arithmetic::div_mod::lemma_fundamental_div_mod(n, x);
    vstd::arithmetic::div_mod::lemma_mod_bound(n, x);
    assert(n < (q + 1) * x) by (nonlinear_arith)
        requires
            n == x * q + n % x,
            n % x < x,
    ;
    if x + q < 2 * t {
        assert(false) by (nonlinear_arith)
            requires
                x + q <= 2 * t - 1,
                t * t <= n,
                n < (q + 1) * x,
                x >= 1,
        ;
    }
}

/// Integer square root by Newton's method.
pub fn isqrt_u32(n: u32) -> (r: i32)
    requires
        n < u32::MAX,
    ensures
        is_isqrt(n as int, r as int),
{
    if n == 0 {
        assert(is_isqrt(0, 0)) by (nonlinear_arith);
        return 0;
    }
    let n64 = n as u64;
    let mut x: u64 = n64;
    let mut y: u64 = (x + 1) / 2;
    proof {
        assert(n64 / n64 == 1) by (nonlinear_arith)
            requires
                n64 >= 1,
        ;
        assert forall|t: int| 0 <= t && #[trigger] sq(t) <= n64 implies t <= x by {
            assert(t <= sq(t)) by (nonlinear_arith)
                requires
                    t >= 0,
            ;
        }
    }
    while y < x
        invariant
            1 <= n64 < u32::MAX,
            1 <= x <= n64,
            y == (x + n64 / x) / 2,
            forall|t: int| 0 <= t && #[trigger] sq(t) <= n64 ==> t <= x,
        decreases x,
    {
        proof {
            assert forall|t: int| 0 <= t && #[trigger] sq(t) <= n64 implies t <= y by {
                lemma_newton_step(n64 as int, x as int, t);
            }
        }
        x = y;
        proof {
            assert(x >= 1) by {
                assert(sq(1) <= n64);
            }
            vstd::arithmetic::div_mod::lemma_div_is_ordered_by_denominator(n64 as int, 1, x as int);
        }
        y = (x + n64 / x) / 2;
    }
    proof {
        vstd::arithmetic::div_mod::lemma_fundamental_div_mod(n64 as int, x as int);
        vstd::arithmetic::div_mod::lemma_mod_bound(n64 as int, x as int);
        let q = n64 / x;
        assert(x * x <= n64) by (nonlinear_arith)
            requires
                q >= x,
                n64 == x * q + n64 % x,
                n64 % x >= 0,
                x >= 1,
        ;
        if (x + 1) * (x + 1) <= n64 {
            assert(sq(x + 1) <= n64);
            assert(x + 1 <= x);
        }
        assert(x < 65536) by (nonlinear_arith)
            requires
                x * x <= n64,
                n64 < 0x1_0000_0000,
                x >= 0,
        ;
    }
    x as i32
}

} // verus!

verus! {

/// Cell `k` of a row-major `cw` x `ch` plane lies in the disk of radius `r` at `(cx, cy)`.
pub open spec fn cell_in_disk(cw: int, ch: int, cx: int, cy: int, r: int, k: int) -> bool {
    &&& cw > 0
    &&& ch > 0
    &&& 0 <= k < cw * ch
    &&& in_disk(cx, cy, r, k % cw, k / cw)
}

/// `after` is `before` with every cell for which `p(k)` holds inked (255) and every other cell unchanged.
pub open spec fn inked(before: Seq<u8>, after: Seq<u8>, p: spec_fn(int) -> bool) -> bool {
    &&& after.len() == before.len()
    &&& forall|k: int| 0 <= k < before.len() ==> #[trigger] after[k] == if p(k) { 255u8 } else { before[k] }
}

/// Plane sizes and disk positions small enough for `i32` arithmetic.
pub open spec fn plane_ok(ink_len: int, cw: int, ch: int, cx: int, cy: int, r: int) -> bool {
    &&& cw * ch <= ink_len
    &&& cw * ch <= i32::MAX
    &&& i32::MIN < cw
    &&& -46340 <= r <= 46340
    &&& -0x2000_0000 <= cx <= 0x2000_0000
    &&& -0x2000_0000 <= cy <= 0x2000_0000
}

/// Stamp a filled disk of radius `r` at `(cx, cy)` into a row-major `cw` x `ch`
/// ink plane, clipped to the plane.
pub fn ink_disk(ink: &mut [u8], cw: i32, ch: i32, cx: i32, cy: i32, r: i32)
    requires
        plane_ok(old(ink)@.len() as int, cw as int, ch as int, cx as int, cy as int, r as int),
    ensures
        inked(old(ink)@, final(ink)@, |k: int| cell_in_disk(cw as int, ch as int, cx as int, cy as int, r as int, k)),
{
    let ghost before = ink@;
    let ghost (gcw, gch, gcx, gcy, gr) = (cw as int, ch as int, cx as int, cy as int, r as int);
    assert(0 <= r * r <= 46340 * 46340) by (nonlinear_arith)
        requires
            -46340 <= r <= 46340,
    ;
    let r2 = (r * r) as u32;
    let ink_len = ink.len();
    let mut dy: i32 = -r;
    while dy <= r
        invariant
            -46340 <= r <= 46340,
            r2 == r * r,
            0 <= r * r <= 46340 * 46340,
            before.len() == ink@.len(),
            dy >= -r,
            dy <= r + 1 || r < 0,
            ink_len == ink@.len(),
            gcw == cw,
            gch == ch,
            gcx == cx,
            gcy == cy,
            gr == r,
            plane_ok(ink_len as int, cw as int, ch as int, cx as int, cy as int, r as int),
            inked(before, ink@, |k: int| cell_in_disk(gcw, gch, gcx, gcy, gr, k) && k / gcw - gcy < dy),
        decreases r + 1 - dy,
    {
        let y = cy + dy;
        let ghost cur = ink@;
        let ghost prev_p = |k: int| cell_in_disk(gcw, gch, gcx, gcy, gr, k) && k / gcw - gcy < dy;
        let ghost next_p = |k: int| cell_in_disk(gcw, gch, gcx, gcy, gr, k) && k / gcw - gcy < dy + 1;
        if y < 0 || y >= ch {
            proof {
                assert forall|k: int| 0 <= k < before.len() implies #[trigger] ink@[k] == if next_p(k) { 255u8 } else { before[k] } by {
                    if cell_in_disk(gcw, gch, gcx, gcy, gr, k) && k / gcw - gcy == dy {
                        vstd::arithmetic::div_mod::lemma_div_pos_is_pos(k, gcw);
                        vstd::arithmetic::div_mod::lemma_div_is_ordered(k, gcw * gch, gcw);
                        vstd::arithmetic::div_mod::lemma_div_by_multiple(gch, gcw);
                        assert(gcw * gch == gch * gcw) by (nonlinear_arith);
                        assert(k / gcw < gch) by {
                            vstd::arithmetic::div_mod::lemma_div_by_multiple_is_strongly_ordered(k, gch * gcw, gch, gcw);
                        }
                    }
                }
            }
            dy += 1;
            continue;
        }
        assert(0 <= dy * dy <= r * r) by (nonlinear_arith)
            requires
                -r <= dy <= r,
        ;
        let rem = if r2 >= (dy * dy) as u32 { r2 - (dy * dy) as u32 } else { 0 };
        let max_dx = isqrt_u32(rem);
        assert(max_dx <= 46340) by (nonlinear_arith)
            requires
                max_dx * max_dx <= rem,
                rem <= 46340 * 46340,
                max_dx >= 0,
        ;
        let x0 = if cx - max_dx >= 0 { cx - max_dx } else { 0 };
        let x1 = if cx + max_dx <= cw - 1 { cx + max_dx } else { cw - 1 };
        if x1 < x0 {
            proof {
                assert forall|k: int| 0 <= k < before.len() implies #[trigger] ink@[k] == if next_p(k) { 255u8 } else { before[k] } by {
                    if cell_in_disk(gcw, gch, gcx, gcy, gr, k) && k / gcw - gcy == dy {
                        let px = k % gcw;
                        vstd::arithmetic::div_mod::lemma_mod_bound(k, gcw);
                        assert((px - cx) * (px - cx) <= rem) by (nonlinear_arith)
                            requires
                                (px - cx) * (px - cx) + dy * dy <= r * r,
                                rem == r * r - dy * dy,
                        ;
                        assert(false) by (nonlinear_arith)
                            requires
                                (px - cx) * (px - cx) <= rem,
                                rem < (max_dx + 1) * (max_dx + 1),
                                max_dx >= 0,
                                0 <= px < cw,
                                x1 < x0,
                                x0 == (if cx - max_dx >= 0 { cx - max_dx } else { 0 }),
                                x1 == (if cx + max_dx <= cw - 1 { cx + max_dx } else { cw - 1 }),
                        ;
                    }
                }
            }
            dy += 1;
            continue;
        }
        proof {
            vstd::arithmetic::mul::lemma_mul_inequality(y as int, ch - 1, cw as int);
            assert((ch - 1) * cw + cw == cw * ch) by (nonlinear_arith);
        }
        let start = (y * cw + x0) as usize;
        let n = (x1 - x0 + 1) as usize;
        let mut i: usize = start;
        while i < start + n
            invariant
                start <= i <= start + n,
                start + n <= ink@.len(),
                ink_len == ink@.len(),
                forall|k: int| 0 <= k < before.len() ==> #[trigger] ink@[k] == if start <= k < i { 255u8 } else { cur[k] },
                ink@.len() == cur.len(),
                before.len() == cur.len(),
            decreases start + n - i,
        {
            ink[i] = 255u8;
            i += 1;
        }
        proof {
            assert forall|k: int| 0 <= k < before.len() implies #[trigger] ink@[k] == if next_p(k) { 255u8 } else { before[k] } by {
                assert(cur[k] == if prev_p(k) { 255u8 } else { before[k] });
                vstd::arithmetic::div_mod::lemma_fundamental_div_mod(k, gcw);
                vstd::arithmetic::div_mod::lemma_mod_bound(k, gcw);
                if start <= k < start + n {
                    vstd::arithmetic::div_mod::lemma_fundamental_div_mod_converse(k, gcw, y as int, k - y * gcw);
                    let px = k % gcw;
                    assert(x0 <= px <= x1);
                    assert((px - cx) * (px - cx) <= max_dx * max_dx) by (nonlinear_arith)
                        requires
                            cx - max_dx <= px <= cx + max_dx,
                            max_dx >= 0,
                    ;
                    assert(k < gcw * gch);
                    assert(rem == r * r - dy * dy);
                    assert(max_dx <= r) by (nonlinear_arith)
                        requires
                            max_dx * max_dx <= r * r,
                            r >= 0,
                            max_dx >= 0,
                    ;
                    assert((px - cx) * (px - cx) + dy * dy <= r * r);
                    assert(cell_in_disk(gcw, gch, gcx, gcy, gr, k));
                } else if cell_in_disk(gcw, gch, gcx, gcy, gr, k) && k / gcw - gcy == dy {
                    let px = k % gcw;
                    assert((px - cx) * (px - cx) <= rem) by (nonlinear_arith)
                        requires
                            (px - cx) * (px - cx) + dy * dy <= r * r,
                            rem == r * r - dy * dy,
                    ;
                    assert(cx - max_dx <= px <= cx + max_dx) by (nonlinear_arith)
                        requires
                            (px - cx) * (px - cx) <= rem,
                            rem < (max_dx + 1) * (max_dx + 1),
                            max_dx >= 0,
                    ;
                    assert(gcw * (k / gcw) == y * gcw) by (nonlinear_arith)
                        requires
                            k / gcw == y,
                    ;
                    assert(k == y * gcw + px);
                    assert(false);
                }
            }
        }
        dy += 1;
    }
    proof {
        assert forall|k: int| 0 <= k < before.len() implies #[trigger] ink@[k] == if cell_in_disk(gcw, gch, gcx, gcy, gr, k) { 255u8 } else { before[k] } by {
            if cell_in_disk(gcw, gch, gcx, gcy, gr, k) {
                assert(k / gcw - gcy <= gr);
            }
        }
    }
}

} // verus!

verus! {

/// `a / n` rounded to the nearest integer, halves away from zero (`n > 0`).
pub open spec fn round_div(a: int, n: int) -> int {
    if a >= 0 {
        (2 * a + n) / (2 * n)
    } else {
        let b = 0 - a;
        0 - ((2 * b + n) / (2 * n))
    }
}

/// Number of disks stamped along a stroke segment, besides the end disk: one
/// every `max(r / 2, 1)` pixels of the longer axis, at least one.
pub open spec fn segment_count(x0: int, y0: int, x1: int, y1: int, r: int) -> int {
    let steps = crate::surface::line_steps(x0, y0, x1, y1);
    let stride = if trunc_div(r, 2) >= 1 { trunc_div(r, 2) } else { 1 };
    if steps / stride >= 1 { steps / stride } else { 1 }
}

/// The centre of the `s`-th disk of a stroke segment: the point a fraction
/// `s / count` along it, rounded to the nearest cell.
pub open spec fn segment_point(x0: int, y0: int, x1: int, y1: int, r: int, s: int) -> (int, int) {
    let n = segment_count(x0, y0, x1, y1, r);
    (round_div(x0 * n + (x1 - x0) * s, n), round_div(y0 * n + (y1 - y0) * s, n))
}

/// Cell `k` is covered by the disks stamped for the segment: those at the
/// first `upto` points along it, plus the end disk when `with_end`.
pub open spec fn on_segment(cw: int, ch: int, x0: int, y0: int, x1: int, y1: int, r: int, upto: int, with_end: bool, k: int) -> bool {
    ||| exists|s: int| 0 <= s < upto && #[trigger] cell_in_disk(cw, ch, segment_point(x0, y0, x1, y1, r, s).0,
        segment_point(x0, y0, x1, y1, r, s).1, r, k)
    ||| (with_end && cell_in_disk(cw, ch, x1, y1, r, k))
}

/// Stroke coordinates small enough for the segment arithmetic.
pub open spec fn stroke_coord(v: int) -> bool {
    -0x1000_0000 <= v <= 0x1000_0000
}

proof fn lemma_round_between(a: int, n: int, lo: int, hi: int)
    requires
        n >= 1,
        lo * n <= a <= hi * n,
    ensures
        lo <= round_div(a, n) <= hi,
{
    if a >= 0 {
        let hi2 = if hi >= 0 { hi } else { 0 };
        assert(hi * n >= 0);
        assert(2 * a + n <= (2 * hi + 1) * n) by (nonlinear_arith)
            requires
                a <= hi * n,
        ;
        vstd::arithmetic::div_mod::lemma_div_is_ordered(2 * a + n, (2 * hi + 1) * n, 2 * n);
        assert((2 * hi + 1) * n == hi * (2 * n) + n) by (nonlinear_arith);
        vstd::arithmetic::div_mod::lemma_fundamental_div_mod_converse((2 * hi + 1) * n, 2 * n, hi, n);
        if lo >= 0 {
            assert(2 * a + n >= (2 * lo) * n) by (nonlinear_arith)
                requires
                    lo * n <= a,
                    n >= 1,
            ;
            vstd::arithmetic::div_mod::lemma_div_is_ordered((2 * lo) * n, 2 * a + n, 2 * n);
            assert((2 * lo) * n == lo * (2 * n) + 0) by (nonlinear_arith);
            vstd::arithmetic::div_mod::lemma_fundamental_div_mod_converse((2 * lo) * n, 2 * n, lo, 0);
        } else {
            vstd::arithmetic::div_mod::lemma_div_pos_is_pos(2 * a + n, 2 * n);
        }
    } else {
        let b = -a;
        assert(-hi * n <= b <= -lo * n) by (nonlinear_arith)
            requires
                b == -a,
                lo * n <= a <= hi * n,
        ;
        assert(2 * b + n <= (2 * (-lo) + 1) * n) by (nonlinear_arith)
            requires
                b <= -lo * n,
        ;
        vstd::arithmetic::div_mod::lemma_div_is_ordered(2 * b + n, (2 * (-lo) + 1) * n, 2 * n);
        assert((2 * (-lo) + 1) * n == (-lo) * (2 * n) + n) by (nonlinear_arith);
        vstd::arithmetic::div_mod::lemma_fundamental_div_mod_converse((2 * (-lo) + 1) * n, 2 * n, -lo, n);
        if hi <= 0 {
            assert(2 * b + n >= (2 * (-hi)) * n) by (nonlinear_arith)
                requires
                    -hi * n <= b,
                    n >= 1,
            ;
            vstd::arithmetic::div_mod::lemma_div_is_ordered((2 * (-hi)) * n, 2 * b + n, 2 * n);
            assert((2 * (-hi)) * n == (-hi) * (2 * n) + 0) by (nonlinear_arith);
            vstd::arithmetic::div_mod::lemma_fundamental_div_mod_converse((2 * (-hi)) * n, 2 * n, -hi, 0);
        } else {
            vstd::arithmetic::div_mod::lemma_div_pos_is_pos(2 * b + n, 2 * n);
        }
    }
}

/// `round_div` computed exactly in 64-bit arithmetic.
fn round_div_i64(a: i64, n: i64) -> (q: i64)
    requires
        1 <= n <= 0x2000_0000,
        -0x1000_0000_0000_0000 <= a <= 0x1000_0000_0000_0000,
    ensures
        q == round_div(a as int, n as int),
{
    if a >= 0 {
        (2 * a + n) / (2 * n)
    } else {
        let b = 0 - a;
        0 - ((2 * b + n) / (2 * n))
    }
}

} // verus!

verus! {

proof fn lemma_inked_compose(a: Seq<u8>, b: Seq<u8>, c: Seq<u8>, p: spec_fn(int) -> bool, q: spec_fn(int) -> bool)
    requires
        inked(a, b, p),
        inked(b, c, q),
    ensures
        inked(a, c, |k: int| p(k) || q(k)),
{
    assert forall|k: int| 0 <= k < a.len() implies #[trigger] c[k] == if p(k) || q(k) { 255u8 } else { a[k] } by {
        assert(c[k] == if q(k) { 255u8 } else { b[k] });
        assert(b[k] == if p(k) { 255u8 } else { a[k] });
    }
}

proof fn lemma_point_between(x0: int, x1: int, n: int, s: int)
    requires
        n >= 1,
        0 <= s <= n,
    ensures
        (if x0 <= x1 { x0 } else { x1 }) <= round_div(x0 * n + (x1 - x0) * s, n) <= (if x0 <= x1 { x1 } else { x0 }),
{
    let lo = if x0 <= x1 { x0 } else { x1 };
    let hi = if x0 <= x1 { x1 } else { x0 };
    assert(lo * n <= x0 * n + (x1 - x0) * s <= hi * n) by (nonlinear_arith)
        requires
            lo == (if x0 <= x1 { x0 } else { x1 }),
            hi == (if x0 <= x1 { x1 } else { x0 }),
            0 <= s <= n,
    ;
    lemma_round_between(x0 * n + (x1 - x0) * s, n, lo, hi);
}

/// Stamp a stroke segment from `(x0, y0)` to `(x1, y1)` into a `cw` x `ch` ink
/// plane: disks of radius `r` at evenly spaced points (about one every `r / 2`
/// pixels, since the disks overlap heavily), then one at the end point.
pub fn ink_segment(ink: &mut [u8], cw: i32, ch: i32, x0: i32, y0: i32, x1: i32, y1: i32, r: i32)
    requires
        cw * ch <= old(ink)@.len(),
        cw * ch <= i32::MAX,
        i32::MIN < cw,
        -46340 <= r <= 46340,
        stroke_coord(x0 as int),
        stroke_coord(y0 as int),
        stroke_coord(x1 as int),
        stroke_coord(y1 as int),
    ensures
        inked(old(ink)@, final(ink)@, |k: int| on_segment(cw as int, ch as int, x0 as int, y0 as int, x1 as int, y1 as int,
            r as int, segment_count(x0 as int, y0 as int, x1 as int, y1 as int, r as int) + 1, true, k)),
{
    let ghost before = ink@;
    let ghost (g0, h0, g1, h1, gr, gw, gh) = (x0 as int, y0 as int, x1 as int, y1 as int, r as int, cw as int, ch as int);
    let dx = if x1 - x0 >= 0 { x1 - x0 } else { x0 - x1 };
    let dy = if y1 - y0 >= 0 { y1 - y0 } else { y0 - y1 };
    let m = if dx >= dy { dx } else { dy };
    let steps = if m >= 1 { m } else { 1 };
    let half = r / 2;
    let stride_step = if half >= 1 { half } else { 1 };
    let q = steps / stride_step;
    let n = if q >= 1 { q } else { 1 };
    assert(n == segment_count(g0, h0, g1, h1, gr));
    proof {
        vstd::arithmetic::div_mod::lemma_div_is_ordered_by_denominator(steps as int, 1, stride_step as int);
    }
    let mut s: i32 = 0;
    while s <= n
        invariant
            0 <= s <= n + 1,
            1 <= n <= 0x2000_0000,
            n == segment_count(g0, h0, g1, h1, gr),
            g0 == x0,
            h0 == y0,
            g1 == x1,
            h1 == y1,
            gr == r,
            gw == cw,
            gh == ch,
            cw * ch <= ink@.len(),
            cw * ch <= i32::MAX,
            i32::MIN < cw,
            -46340 <= r <= 46340,
            stroke_coord(x0 as int),
            stroke_coord(y0 as int),
            stroke_coord(x1 as int),
            stroke_coord(y1 as int),
            inked(before, ink@, |k: int| on_segment(gw, gh, g0, h0, g1, h1, gr, s as int, false, k)),
        decreases n + 1 - s,
    {
        proof {
            lemma_point_between(g0, g1, n as int, s as int);
            lemma_point_between(h0, h1, n as int, s as int);
            assert(-0x0400_0000_0000_0000 <= (x0 as i64) * (n as i64) <= 0x0400_0000_0000_0000) by (nonlinear_arith)
                requires
                    stroke_coord(x0 as int),
                    1 <= n <= 0x2000_0000,
            ;
            assert(-0x0800_0000_0000_0000 <= (x1 - x0) * s <= 0x0800_0000_0000_0000) by (nonlinear_arith)
                requires
                    -0x2000_0000 <= x1 - x0 <= 0x2000_0000,
                    0 <= s <= 0x2000_0001,
            ;
            assert(-0x0400_0000_0000_0000 <= (y0 as i64) * (n as i64) <= 0x0400_0000_0000_0000) by (nonlinear_arith)
                requires
                    stroke_coord(y0 as int),
                    1 <= n <= 0x2000_0000,
            ;
            assert(-0x0800_0000_0000_0000 <= (y1 - y0) * s <= 0x0800_0000_0000_0000) by (nonlinear_arith)
                requires
                    -0x2000_0000 <= y1 - y0 <= 0x2000_0000,
                    0 <= s <= 0x2000_0001,
            ;
            assert(-0x1000_0000_0000_0000 <= (x0 as i64) * (n as i64) + ((x1 - x0) as i64) * (s as i64)
                <= 0x1000_0000_0000_0000) by (nonlinear_arith)
                requires
                    stroke_coord(x0 as int),
                    stroke_coord(x1 as int),
                    1 <= n <= 0x2000_0000,
                    0 <= s <= n,
            ;
            assert(-0x1000_0000_0000_0000 <= (y0 as i64) * (n as i64) + ((y1 - y0) as i64) * (s as i64)
                <= 0x1000_0000_0000_0000) by (nonlinear_arith)
                requires
                    stroke_coord(y0 as int),
                    stroke_coord(y1 as int),
                    1 <= n <= 0x2000_0000,
                    0 <= s <= n,
            ;
        }
        let cx = round_div_i64((x0 as i64) * (n as i64) + ((x1 - x0) as i64) * (s as i64), n as i64) as i32;
        let cy = round_div_i64((y0 as i64) * (n as i64) + ((y1 - y0) as i64) * (s as i64), n as i64) as i32;
        assert((cx as int, cy as int) == segment_point(g0, h0, g1, h1, gr, s as int));
        let ghost mid = ink@;
        ink_disk(ink, cw, ch, cx, cy, r);
        proof {
            lemma_inked_compose(before, mid, ink@,
                |k: int| on_segment(gw, gh, g0, h0, g1, h1, gr, s as int, false, k),
                |k: int| cell_in_disk(gw, gh, cx as int, cy as int, gr, k));
            assert forall|k: int| 0 <= k < before.len() implies #[trigger] ink@[k] == if on_segment(gw, gh, g0, h0, g1, h1, gr,
                s as int + 1, false, k) { 255u8 } else { before[k] } by {
                if cell_in_disk(gw, gh, cx as int, cy as int, gr, k) {
                    assert(cell_in_disk(gw, gh, segment_point(g0, h0, g1, h1, gr, s as int).0,
                        segment_point(g0, h0, g1, h1, gr, s as int).1, gr, k));
                }
                if on_segment(gw, gh, g0, h0, g1, h1, gr, s as int + 1, false, k) {
                    let j = choose|j: int| 0 <= j < s + 1 && #[trigger] cell_in_disk(gw, gh, segment_point(g0, h0, g1, h1, gr, j).0,
                        segment_point(g0, h0, g1, h1, gr, j).1, gr, k);
                    if j < s {
                        assert(on_segment(gw, gh, g0, h0, g1, h1, gr, s as int, false, k));
                    }
                }
                if on_segment(gw, gh, g0, h0, g1, h1, gr, s as int, false, k) {
                    let j = choose|j: int| 0 <= j < s && #[trigger] cell_in_disk(gw, gh, segment_point(g0, h0, g1, h1, gr, j).0,
                        segment_point(g0, h0, g1, h1, gr, j).1, gr, k);
                    assert(0 <= j < s + 1);
                }
            }
        }
        s += 1;
    }
    let ghost mid = ink@;
    ink_disk(ink, cw, ch, x1, y1, r);
    proof {
        lemma_inked_compose(before, mid, ink@,
            |k: int| on_segment(gw, gh, g0, h0, g1, h1, gr, s as int, false, k),
            |k: int| cell_in_disk(gw, gh, g1, h1, gr, k));
        assert forall|k: int| 0 <= k < before.len() implies #[trigger] ink@[k] == if on_segment(gw, gh, g0, h0, g1, h1, gr,
            s as int, true, k) { 255u8 } else { before[k] } by {
        }
    }
}

} // verus!

verus! {

/// The column of the active row under `(x, y)`, allowing a 12 px margin
/// around the row; none when the game is over or the point is elsewhere.
pub open spec fn cell_at_spec(game: Game, x: int, y: int) -> Option<usize> {
    let ry = GRID_Y0 + game.filled_rows * STEP;
    if game.state != State::Playing {
        None
    } else if y < ry - 12 || y >= ry + CELL + 12 {
        None
    } else if x < GRID_X0 - 12 || x >= GRID_X0 + GRID_W + 12 {
        None
    } else {
        let c = trunc_div(x - GRID_X0, STEP as int);
        Some((if c < 0 { 0 } else if c > COLS - 1 { COLS - 1 } else { c }) as usize)
    }
}

/// The grid cell of the active row that a pen or tap position falls in.
pub fn cell_at(game: &Game, x: i32, y: i32) -> (c: Option<usize>)
    requires
        game.filled_rows <= ROWS,
    ensures
        c == cell_at_spec(*game, x as int, y as int),
        c matches Some(i) ==> i < COLS,
{
    if game.state != State::Playing {
        return None;
    }
    let r = game.filled_rows;
    let ry = GRID_Y0 + r as i32 * STEP;
    if y < ry - 12 || y >= ry + CELL + 12 {
        return None;
    }
    if x < GRID_X0 - 12 || x >= GRID_X0 + GRID_W + 12 {
        return None;
    }
    let q = (x - GRID_X0) / STEP;
    let c = if q < 0 { 0 } else if q > COLS as i32 - 1 { COLS as i32 - 1 } else { q };
    Some(c as usize)
}

} // verus!

verus! {

proof fn lemma_round_is_nearest(a: int, n: int)
    requires
        n >= 1,
    ensures
        2 * (round_div(a, n) * n - a) <= n,
        2 * (a - round_div(a, n) * n) <= n,
{
    if a >= 0 {
        let q = (2 * a + n) / (2 * n);
        vstd::arithmetic::div_mod::lemma_fundamental_div_mod(2 * a + n, 2 * n);
        vstd::arithmetic::div_mod::lemma_mod_bound(2 * a + n, 2 * n);
        assert(2 * (q * n - a) <= n && 2 * (a - q * n) <= n) by (nonlinear_arith)
            requires
                2 * a + n == (2 * n) * q + (2 * a + n) % (2 * n),
                0 <= (2 * a + n) % (2 * n) < 2 * n,
        ;
    } else {
        let b = 0 - a;
        let q = (2 * b + n) / (2 * n);
        vstd::arithmetic::div_mod::lemma_fundamental_div_mod(2 * b + n, 2 * n);
        vstd::arithmetic::div_mod::lemma_mod_bound(2 * b + n, 2 * n);
        assert(2 * (q * n - b) <= n && 2 * (b - q * n) <= n) by (nonlinear_arith)
            requires
                2 * b + n == (2 * n) * q + (2 * b + n) % (2 * n),
                0 <= (2 * b + n) % (2 * n) < 2 * n,
        ;
        assert(round_div(a, n) == -q);
        assert(round_div(a, n) * n == -(q * n)) by (nonlinear_arith)
            requires
                round_div(a, n) == -q,
        ;
    }
}

proof fn lemma_round_exact(c: int, n: int)
    requires
        n >= 1,
    ensures
        round_div(c * n, n) == c,
{
    lemma_round_is_nearest(c * n, n);
    let d = round_div(c * n, n);
    assert(d == c) by (nonlinear_arith)
        requires
            2 * (d * n - c * n) <= n,
            2 * (c * n - d * n) <= n,
            n >= 1,
    ;
}

/// The disks of a stroke segment are centred on it: the `s`-th of `n`
/// centres is the cell nearest to the point `s / n` of the way from
/// `(x0, y0)` to `(x1, y1)` on each axis (within half a cell), the first is
/// the start and the last the end of the segment.
pub proof fn lemma_segment_points_on_line(x0: int, y0: int, x1: int, y1: int, r: int, s: int)
    requires
        0 <= s <= segment_count(x0, y0, x1, y1, r),
    ensures
        ({
            let n = segment_count(x0, y0, x1, y1, r);
            let c = segment_point(x0, y0, x1, y1, r, s);
            &&& 2 * (c.0 * n - (x0 * n + (x1 - x0) * s)) <= n
            &&& 2 * ((x0 * n + (x1 - x0) * s) - c.0 * n) <= n
            &&& 2 * (c.1 * n - (y0 * n + (y1 - y0) * s)) <= n
            &&& 2 * ((y0 * n + (y1 - y0) * s) - c.1 * n) <= n
        }),
        segment_point(x0, y0, x1, y1, r, 0) == (x0, y0),
        segment_point(x0, y0, x1, y1, r, segment_count(x0, y0, x1, y1, r)) == (x1, y1),
{
    let n = segment_count(x0, y0, x1, y1, r);
    lemma_round_is_nearest(x0 * n + (x1 - x0) * s, n);
    lemma_round_is_nearest(y0 * n + (y1 - y0) * s, n);
    assert(x0 * n + (x1 - x0) * 0 == x0 * n && y0 * n + (y1 - y0) * 0 == y0 * n) by (nonlinear_arith);
    assert(x0 * n + (x1 - x0) * n == x1 * n && y0 * n + (y1 - y0) * n == y1 * n) by (nonlinear_arith);
    lemma_round_exact(x0, n);
    lemma_round_exact(y0, n);
    lemma_round_exact(x1, n);
    lemma_round_exact(y1, n);
}

} // verus!
