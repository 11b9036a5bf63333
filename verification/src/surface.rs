//! Drawing surface: the same drawing code renders into an RGB565 framebuffer
//! (2 bytes per pixel, little endian) or an RGB32 one (4 bytes per pixel:
//! B, G, R, 0xFF). Colors are RGB565 `u16` at the API; the surface converts on
//! write.

use vstd::prelude::*;
use vstd::arithmetic::div_mod::{lemma_fundamental_div_mod, lemma_fundamental_div_mod_converse, lemma_mod_bound, lemma_div_pos_is_pos};
use vstd::arithmetic::mul::lemma_mul_inequality;

verus! {

#[derive(Clone, Copy, PartialEq, Eq, Structural)]
pub enum PixFmt {
    /// 2 bytes/px, little-endian RGB565.
    Rgb565,
    /// 4 bytes/px: bytes B, G, R, 0xFF.
    Rgb32,
}

pub const WHITE: u16 = 0xFFFF;
pub const BLACK: u16 = 0x0000;
/// Old ink: a readable e-ink gray.
pub const FADED: u16 = 0x7BCF;

// Colours tuned for a subtractive colour e-ink panel: fills can be any of
// these; YELLOW and ORANGE have too little contrast for lines or text.
pub const BLUE: u16 = 0x001F;
pub const VIOLET: u16 = 0x797F;
pub const CYAN: u16 = 0x3C3F;
pub const MAGENTA: u16 = 0xD35F;
pub const ROSE: u16 = 0xF810;
pub const GREEN: u16 = 0x07E0;
pub const YELLOW: u16 = 0xF660;
pub const ORANGE: u16 = 0xFAC0;

// Older names, each the nearest colour the panel resolves.
pub const RED: u16 = 0xF810;
pub const PURPLE: u16 = 0xD35F;
pub const INDIGO: u16 = 0x797F;
pub const TEAL: u16 = 0x3C3F;
pub const CRIMSON: u16 = 0xF810;
pub const DARKGREEN: u16 = 0x07E0;
pub const BULLET: u16 = 0x001F;
pub const SEPIA: u16 = 0xF810;

/// Bytes per pixel of a format.
pub open spec fn bpp_of(f: PixFmt) -> int {
    match f {
        PixFmt::Rgb565 => 2,
        PixFmt::Rgb32 => 4,
    }
}

/// A 5-bit channel widened to 8 bits, rounding to nearest.
pub open spec fn widen5(v: int) -> int {
    (v * 255 + 15) / 31
}

/// A 6-bit channel widened to 8 bits, rounding to nearest.
pub open spec fn widen6(v: int) -> int {
    (v * 255 + 31) / 63
}

/// The red, green and blue channels of an RGB565 colour, each widened to 8 bits.
pub open spec fn expand_spec(c: u16) -> (u8, u8, u8) {
    (
        widen5(((c >> 11u16) & 0x1fu16) as int) as u8,
        widen6(((c >> 5u16) & 0x3fu16) as int) as u8,
        widen5((c & 0x1fu16) as int) as u8,
    )
}

/// Byte `comp` of a pixel of colour `c` in format `f`.
pub open spec fn px_byte(f: PixFmt, c: u16, comp: int) -> u8 {
    match f {
        PixFmt::Rgb565 => if comp == 0 { (c & 0xffu16) as u8 } else { (c >> 8u16) as u8 },
        PixFmt::Rgb32 => if comp == 0 {
            expand_spec(c).2
        } else if comp == 1 {
            expand_spec(c).1
        } else if comp == 2 {
            expand_spec(c).0
        } else {
            0xFFu8
        },
    }
}

/// Split an RGB565 colour into 8-bit red, green and blue.
pub fn expand565(c: u16) -> (rgb: (u8, u8, u8))
    ensures
        rgb == expand_spec(c),
{
    let r5 = (c >> 11u16) & 0x1fu16;
    let g6 = (c >> 5u16) & 0x3fu16;
    let b5 = c & 0x1fu16;
    assert(r5 <= 31) by (bit_vector)
        requires
            r5 == (c >> 11u16) & 0x1fu16,
    ;
    assert(g6 <= 63) by (bit_vector)
        requires
            g6 == (c >> 5u16) & 0x3fu16,
    ;
    assert(b5 <= 31) by (bit_vector)
        requires
            b5 == c & 0x1fu16,
    ;
    let r = r5 as u32;
    let g = g6 as u32;
    let b = b5 as u32;
    (((r * 255 + 15) / 31) as u8, ((g * 255 + 31) / 63) as u8, ((b * 255 + 15) / 31) as u8)
}

pub struct Surface {
    /// The framebuffer bytes, row after row, `stride` bytes per row.
    pub buf: Vec<u8>,
    pub w: usize,
    pub h: usize,
    pub stride: usize,
    pub fmt: PixFmt,
}

impl View for Surface {
    type V = Seq<u8>;

    /// The raw bytes of the framebuffer.
    open spec fn view(&self) -> Seq<u8> {
        self.buf@
    }
}

/// Row of byte `k` in a buffer with row pitch `stride`.
pub open spec fn byte_row(stride: int, k: int) -> int {
    k / stride
}

/// Column of the pixel holding byte `k`.
pub open spec fn byte_col(stride: int, bpp: int, k: int) -> int {
    (k % stride) / bpp
}

/// Which byte of its pixel byte `k` is.
pub open spec fn byte_comp(stride: int, bpp: int, k: int) -> int {
    (k % stride) % bpp
}

impl Surface {
    pub open spec fn bpp_spec(&self) -> int {
        bpp_of(self.fmt)
    }

    /// The geometry fits the buffer: rows are `stride` bytes apart, a row of
    /// pixels fits in a stride, the last row fits in the buffer, and the size
    /// fits `i32` screen coordinates.
    pub open spec fn wf(&self) -> bool {
        &&& self.w * self.bpp_spec() <= self.stride
        &&& (self.h > 0 ==> (self.h - 1) * self.stride + self.w * self.bpp_spec() <= self@.len())
        &&& self.w <= i32::MAX
        &&& self.h <= i32::MAX
        &&& self@.len() <= usize::MAX
    }

    /// Byte `k` of the buffer belongs to a pixel of the image.
    pub open spec fn in_image(&self, k: int) -> bool {
        &&& self.stride > 0
        &&& 0 <= k < self@.len()
        &&& byte_row(self.stride as int, k) < self.h
        &&& byte_col(self.stride as int, self.bpp_spec(), k) < self.w
    }

    /// Index of byte `comp` of pixel `(x, y)`.
    pub open spec fn index_of(&self, x: int, y: int, comp: int) -> int {
        y * self.stride + x * self.bpp_spec() + comp
    }

    /// `after` is this surface with every image pixel `(x, y)` for which `p(x, y)`
    /// holds set to colour `c`, and every other byte unchanged.
    pub open spec fn painted(&self, after: Seq<u8>, c: u16, p: spec_fn(int, int) -> bool) -> bool {
        &&& after.len() == self@.len()
        &&& forall|k: int| 0 <= k < self@.len() ==> #[trigger] after[k] == if self.in_image(k) && p(
            byte_col(self.stride as int, self.bpp_spec(), k),
            byte_row(self.stride as int, k),
        ) {
            px_byte(self.fmt, c, byte_comp(self.stride as int, self.bpp_spec(), k))
        } else {
            self@[k]
        }
    }

    /// Byte `comp` of pixel `(x, y)`.
    pub open spec fn px(&self, x: int, y: int, comp: int) -> u8 {
        self@[self.index_of(x, y, comp)]
    }

    proof fn lemma_index(&self, x: int, y: int, comp: int)
        requires
            self.wf(),
            0 <= x < self.w,
            0 <= y < self.h,
            0 <= comp < self.bpp_spec(),
        ensures
            0 <= self.index_of(x, y, comp) < self@.len(),
            self.in_image(self.index_of(x, y, comp)),
            byte_row(self.stride as int, self.index_of(x, y, comp)) == y,
            byte_col(self.stride as int, self.bpp_spec(), self.index_of(x, y, comp)) == x,
            byte_comp(self.stride as int, self.bpp_spec(), self.index_of(x, y, comp)) == comp,
    {
        let b = self.bpp_spec();
        let s = self.stride as int;
        let off = x * b + comp;
        lemma_mul_inequality(x + 1, self.w as int, b);
        assert(off < self.w * b) by (nonlinear_arith)
            requires
                off == x * b + comp,
                comp < b,
                (x + 1) * b <= self.w * b,
        ;
        lemma_mul_inequality(y, self.h - 1, s);
        assert(y * s + off < self@.len()) by (nonlinear_arith)
            requires
                y * s <= (self.h - 1) * s,
                off < self.w * b,
                (self.h - 1) * s + self.w * b <= self@.len(),
        ;
        assert(y * s >= 0) by (nonlinear_arith)
            requires
                y >= 0,
                s >= 0,
        ;
        assert(x * b >= 0) by (nonlinear_arith)
            requires
                x >= 0,
                b >= 0,
        ;
        lemma_fundamental_div_mod_converse(y * s + off, s, y, off);
        lemma_fundamental_div_mod_converse(off, b, x, comp);
    }

    proof fn lemma_decode(&self, k: int)
        requires
            self.wf(),
            self.in_image(k),
        ensures
            k == self.index_of(
                byte_col(self.stride as int, self.bpp_spec(), k),
                byte_row(self.stride as int, k),
                byte_comp(self.stride as int, self.bpp_spec(), k),
            ),
            0 <= byte_col(self.stride as int, self.bpp_spec(), k),
            0 <= byte_row(self.stride as int, k),
            0 <= byte_comp(self.stride as int, self.bpp_spec(), k) < self.bpp_spec(),
    {
        let b = self.bpp_spec();
        let s = self.stride as int;
        lemma_fundamental_div_mod(k, s);
        lemma_fundamental_div_mod(k % s, b);
        assert(s * (k / s) == (k / s) * s) by (nonlinear_arith);
        assert(b * ((k % s) / b) == ((k % s) / b) * b) by (nonlinear_arith);
    }

    /// Set pixel `(x, y)` to colour `c`.
    fn set_pixel(&mut self, x: usize, y: usize, c: u16)
        requires
            old(self).wf(),
            x < old(self).w,
            y < old(self).h,
        ensures
            final(self).wf(),
            final(self).w == old(self).w,
            final(self).h == old(self).h,
            final(self).stride == old(self).stride,
            final(self).fmt == old(self).fmt,
            old(self).painted(final(self)@, c, |px: int, py: int| px == x && py == y),
    {
        let ghost before = *self;
        proof {
            self.lemma_index(x as int, y as int, 0);
            self.lemma_index(x as int, y as int, self.bpp_spec() - 1);
        }
        match self.fmt {
            PixFmt::Rgb565 => {
                assert(self.index_of(x as int, y as int, 1) == y * self.stride + x * 2 + 1);
                let i = y * self.stride + x * 2;
                self.buf.set(i, (c & 0xffu16) as u8);
                self.buf.set(i + 1, (c >> 8u16) as u8);
            },
            PixFmt::Rgb32 => {
                let (r, g, bl) = expand565(c);
                assert(self.index_of(x as int, y as int, 3) == y * self.stride + x * 4 + 3);
                let i = y * self.stride + x * 4;
                self.buf.set(i, bl);
                self.buf.set(i + 1, g);
                self.buf.set(i + 2, r);
                self.buf.set(i + 3, 0xFFu8);
            },
        }
        proof {
            assert forall|k: int| 0 <= k < before@.len() implies #[trigger] self@[k] == if before.in_image(k) && (
            byte_col(before.stride as int, before.bpp_spec(), k) == x && byte_row(before.stride as int, k) == y) {
                px_byte(before.fmt, c, byte_comp(before.stride as int, before.bpp_spec(), k))
            } else {
                before@[k]
            } by {
                let i0 = before.index_of(x as int, y as int, 0);
                if k >= i0 && k < i0 + before.bpp_spec() {
                    before.lemma_index(x as int, y as int, k - i0);
                } else if before.in_image(k) {
                    before.lemma_decode(k);
                }
            }
        }
    }

    /// `other` has the same geometry as this surface.
    pub open spec fn same_geometry(&self, other: &Surface) -> bool {
        &&& other.w == self.w
        &&& other.h == self.h
        &&& other.stride == self.stride
        &&& other.fmt == self.fmt
        &&& other@.len() == self@.len()
    }

    pub proof fn lemma_paint_compose(&self, mid: &Surface, after: Seq<u8>, c: u16, p: spec_fn(int, int) -> bool, q: spec_fn(int, int) -> bool)
        requires
            self.same_geometry(mid),
            self.painted(mid@, c, p),
            mid.painted(after, c, q),
        ensures
            self.painted(after, c, |x: int, y: int| p(x, y) || q(x, y)),
    {
        assert forall|k: int| 0 <= k < self@.len() implies #[trigger] after[k] == if self.in_image(k) && (p(
            byte_col(self.stride as int, self.bpp_spec(), k),
            byte_row(self.stride as int, k),
        ) || q(byte_col(self.stride as int, self.bpp_spec(), k), byte_row(self.stride as int, k))) {
            px_byte(self.fmt, c, byte_comp(self.stride as int, self.bpp_spec(), k))
        } else {
            self@[k]
        } by {
            assert(after[k] == if mid.in_image(k) && q(
                byte_col(mid.stride as int, mid.bpp_spec(), k),
                byte_row(mid.stride as int, k),
            ) {
                px_byte(mid.fmt, c, byte_comp(mid.stride as int, mid.bpp_spec(), k))
            } else {
                mid@[k]
            });
            assert(mid@[k] == if self.in_image(k) && p(
                byte_col(self.stride as int, self.bpp_spec(), k),
                byte_row(self.stride as int, k),
            ) {
                px_byte(self.fmt, c, byte_comp(self.stride as int, self.bpp_spec(), k))
            } else {
                self@[k]
            });
        }
    }

    pub proof fn lemma_paint_nothing(&self, c: u16)
        ensures
            self.painted(self@, c, |x: int, y: int| false),
    {
    }

    pub proof fn lemma_paint_same(&self, after: Seq<u8>, c: u16, p: spec_fn(int, int) -> bool, q: spec_fn(int, int) -> bool)
        requires
            self.painted(after, c, p),
            forall|x: int, y: int| 0 <= x < self.w && 0 <= y < self.h ==> (#[trigger] p(x, y) <==> q(x, y)),
        ensures
            self.painted(after, c, q),
    {
        assert forall|k: int| 0 <= k < self@.len() implies #[trigger] after[k] == if self.in_image(k) && q(
            byte_col(self.stride as int, self.bpp_spec(), k),
            byte_row(self.stride as int, k),
        ) {
            px_byte(self.fmt, c, byte_comp(self.stride as int, self.bpp_spec(), k))
        } else {
            self@[k]
        } by {
            if self.in_image(k) {
                let b = self.bpp_spec();
                let s = self.stride as int;
                lemma_mod_bound(k, s);
                lemma_div_pos_is_pos(k % s, b);
                lemma_div_pos_is_pos(k, s);
            }
        }
    }

    /// A surface over `buf` with the given geometry.
    pub fn new(buf: Vec<u8>, w: usize, h: usize, stride: usize, fmt: PixFmt) -> (s: Self)
        requires
            w * bpp_of(fmt) <= stride,
            h > 0 ==> (h - 1) * stride + w * bpp_of(fmt) <= buf@.len(),
            w <= i32::MAX,
            h <= i32::MAX,
        ensures
            s@ == buf@,
            s.w == w,
            s.h == h,
            s.stride == stride,
            s.fmt == fmt,
            s.wf(),
    {
        let len = buf.len();
        Surface { buf, w, h, stride, fmt }
    }

    /// Bytes per pixel.
    pub fn bpp(&self) -> (b: usize)
        ensures
            b == self.bpp_spec(),
    {
        match self.fmt {
            PixFmt::Rgb565 => 2,
            PixFmt::Rgb32 => 4,
        }
    }

    /// Set pixel `(x, y)` to colour `c`; coordinates off the surface are ignored.
    pub fn put_px(&mut self, x: i32, y: i32, c: u16)
        requires
            old(self).wf(),
        ensures
            final(self).wf(),
            old(self).same_geometry(&*final(self)),
            old(self).painted(final(self)@, c, |px: int, py: int| px == x && py == y),
    {
        if x < 0 || y < 0 || x >= self.w as i32 || y >= self.h as i32 {
            proof {
                self.lemma_paint_nothing(c);
                self.lemma_paint_same(self@, c, |px: int, py: int| false, |px: int, py: int| px == x && py == y);
            }
            return;
        }
        self.set_pixel(x as usize, y as usize, c);
        proof {
            old(self).lemma_paint_same(self@, c, |px: int, py: int| px == (x as usize) && py == (y as usize),
                |px: int, py: int| px == x && py == y);
        }
    }

    /// Fill the rectangle `[x, x + w) x [y, y + h)`, clipped to the surface, with colour `c`.
    pub fn fill_rect(&mut self, x: usize, y: usize, w: usize, h: usize, c: u16)
        requires
            old(self).wf(),
            x + w <= usize::MAX,
            y + h <= usize::MAX,
        ensures
            final(self).wf(),
            old(self).same_geometry(&*final(self)),
            old(self).painted(final(self)@, c, |px: int, py: int| x <= px < x + w && y <= py < y + h),
    {
        let x1 = if x + w < self.w { x + w } else { self.w };
        let y1 = if y + h < self.h { y + h } else { self.h };
        let ghost start = *self;
        proof {
            start.lemma_paint_nothing(c);
        }
        if x >= x1 || y >= y1 {
            proof {
                start.lemma_paint_same(self@, c, |px: int, py: int| false,
                    |px: int, py: int| x <= px < x + w && y <= py < y + h);
            }
            return;
        }
        let mut row = y;
        while row < y1
            invariant
                y <= row <= y1,
                x < x1 <= start.w,
                y1 <= start.h,
                self.wf(),
                start.same_geometry(&*self),
                start.painted(self@, c, |px: int, py: int| x <= px < x1 && y <= py < row),
            decreases y1 - row,
        {
            let mut col = x;
            while col < x1
                invariant
                    x <= col <= x1,
                    x1 <= start.w,
                    y <= row < y1,
                    y1 <= start.h,
                    self.wf(),
                    start.same_geometry(&*self),
                    start.painted(self@, c, |px: int, py: int| (x <= px < x1 && y <= py < row) || (py == row && x <= px < col)),
                decreases x1 - col,
            {
                let ghost mid = *self;
                self.set_pixel(col, row, c);
                proof {
                    start.lemma_paint_compose(&mid, self@, c,
                        |px: int, py: int| (x <= px < x1 && y <= py < row) || (py == row && x <= px < col),
                        |px: int, py: int| px == col && py == row);
                    start.lemma_paint_same(self@, c,
                        |px: int, py: int| ((x <= px < x1 && y <= py < row) || (py == row && x <= px < col)) || (px == col && py == row),
                        |px: int, py: int| (x <= px < x1 && y <= py < row) || (py == row && x <= px < col + 1));
                }
                col += 1;
            }
            proof {
                start.lemma_paint_same(self@, c,
                    |px: int, py: int| (x <= px < x1 && y <= py < row) || (py == row && x <= px < x1),
                    |px: int, py: int| x <= px < x1 && y <= py < row + 1);
            }
            row += 1;
        }
        proof {
            start.lemma_paint_same(self@, c,
                |px: int, py: int| x <= px < x1 && y <= py < y1,
                |px: int, py: int| x <= px < x + w && y <= py < y + h);
        }
    }

    /// `after` is this surface with byte `comp` of every image pixel `(x, y)`
    /// with `p(x, y)` replaced by `g(x, y, comp)`, and every other byte unchanged.
    pub open spec fn rewritten(&self, after: Seq<u8>, p: spec_fn(int, int) -> bool, g: spec_fn(int, int, int) -> u8) -> bool {
        &&& after.len() == self@.len()
        &&& forall|k: int| 0 <= k < self@.len() ==> #[trigger] after[k] == if self.in_image(k) && p(
            byte_col(self.stride as int, self.bpp_spec(), k),
            byte_row(self.stride as int, k),
        ) {
            g(
                byte_col(self.stride as int, self.bpp_spec(), k),
                byte_row(self.stride as int, k),
                byte_comp(self.stride as int, self.bpp_spec(), k),
            )
        } else {
            self@[k]
        }
    }

    proof fn lemma_rewrite_compose(&self, mid: &Surface, after: Seq<u8>, p: spec_fn(int, int) -> bool,
        q: spec_fn(int, int) -> bool, g: spec_fn(int, int, int) -> u8)
        requires
            self.same_geometry(mid),
            self.rewritten(mid@, p, g),
            mid.rewritten(after, q, g),
        ensures
            self.rewritten(after, |x: int, y: int| p(x, y) || q(x, y), g),
    {
        assert forall|k: int| 0 <= k < self@.len() implies #[trigger] after[k] == if self.in_image(k) && (p(
            byte_col(self.stride as int, self.bpp_spec(), k),
            byte_row(self.stride as int, k),
        ) || q(byte_col(self.stride as int, self.bpp_spec(), k), byte_row(self.stride as int, k))) {
            g(
                byte_col(self.stride as int, self.bpp_spec(), k),
                byte_row(self.stride as int, k),
                byte_comp(self.stride as int, self.bpp_spec(), k),
            )
        } else {
            self@[k]
        } by {
            assert(after[k] == if mid.in_image(k) && q(
                byte_col(mid.stride as int, mid.bpp_spec(), k),
                byte_row(mid.stride as int, k),
            ) {
                g(
                    byte_col(mid.stride as int, mid.bpp_spec(), k),
                    byte_row(mid.stride as int, k),
                    byte_comp(mid.stride as int, mid.bpp_spec(), k),
                )
            } else {
                mid@[k]
            });
            assert(mid@[k] == if self.in_image(k) && p(
                byte_col(self.stride as int, self.bpp_spec(), k),
                byte_row(self.stride as int, k),
            ) {
                g(
                    byte_col(self.stride as int, self.bpp_spec(), k),
                    byte_row(self.stride as int, k),
                    byte_comp(self.stride as int, self.bpp_spec(), k),
                )
            } else {
                self@[k]
            });
        }
    }

    proof fn lemma_rewrite_same(&self, after: Seq<u8>, p: spec_fn(int, int) -> bool, q: spec_fn(int, int) -> bool,
        g: spec_fn(int, int, int) -> u8, g2: spec_fn(int, int, int) -> u8)
        requires
            self.rewritten(after, p, g),
            forall|x: int, y: int| 0 <= x < self.w && 0 <= y < self.h ==> (#[trigger] p(x, y) <==> q(x, y)),
            forall|x: int, y: int, c: int| 0 <= x < self.w && 0 <= y < self.h && 0 <= c < self.bpp_spec() && p(x, y)
                ==> #[trigger] g(x, y, c) == g2(x, y, c),
        ensures
            self.rewritten(after, q, g2),
    {
        assert forall|k: int| 0 <= k < self@.len() implies #[trigger] after[k] == if self.in_image(k) && q(
            byte_col(self.stride as int, self.bpp_spec(), k),
            byte_row(self.stride as int, k),
        ) {
            g2(
                byte_col(self.stride as int, self.bpp_spec(), k),
                byte_row(self.stride as int, k),
                byte_comp(self.stride as int, self.bpp_spec(), k),
            )
        } else {
            self@[k]
        } by {
            if self.in_image(k) {
                let b = self.bpp_spec();
                let s = self.stride as int;
                lemma_mod_bound(k, s);
                lemma_div_pos_is_pos(k % s, b);
                lemma_div_pos_is_pos(k, s);
                lemma_mod_bound(k % s, b);
            }
        }
    }

    /// Rewrite the bytes of pixel `(x, y)` with `v[comp]`.
    fn write_pixel(&mut self, x: usize, y: usize, v: &[u8; 4], Ghost(g): Ghost<spec_fn(int, int, int) -> u8>)
        requires
            old(self).wf(),
            x < old(self).w,
            y < old(self).h,
            forall|c: int| 0 <= c < old(self).bpp_spec() ==> #[trigger] g(x as int, y as int, c) == v@[c],
        ensures
            final(self).wf(),
            old(self).same_geometry(&*final(self)),
            old(self).rewritten(final(self)@, |px: int, py: int| px == x && py == y, g),
    {
        let ghost before = *self;
        let b = self.bpp();
        proof {
            self.lemma_index(x as int, y as int, 0);
            self.lemma_index(x as int, y as int, self.bpp_spec() - 1);
        }
        assert(self.index_of(x as int, y as int, 0) == y * self.stride + x * b);
        let i = y * self.stride + x * b;
        let mut c: usize = 0;
        while c < b
            invariant
                c <= b,
                b == before.bpp_spec(),
                i == before.index_of(x as int, y as int, 0),
                i + b <= before@.len(),
                before@.len() <= usize::MAX,
                self.w == before.w,
                self.h == before.h,
                self.stride == before.stride,
                self.fmt == before.fmt,
                self@.len() == before@.len(),
                forall|k: int| 0 <= k < before@.len() ==> #[trigger] self@[k] == if i <= k < i + c {
                    v@[k - i]
                } else {
                    before@[k]
                },
            decreases b - c,
        {
            self.buf.set(i + c, v[c]);
            c += 1;
        }
        proof {
            assert forall|k: int| 0 <= k < before@.len() implies #[trigger] self@[k] == if before.in_image(k) && (
            byte_col(before.stride as int, before.bpp_spec(), k) == x && byte_row(before.stride as int, k) == y) {
                g(byte_col(before.stride as int, before.bpp_spec(), k), byte_row(before.stride as int, k),
                    byte_comp(before.stride as int, before.bpp_spec(), k))
            } else {
                before@[k]
            } by {
                if k >= i && k < i + b {
                    before.lemma_index(x as int, y as int, k - i);
                } else if before.in_image(k) {
                    before.lemma_decode(k);
                }
            }
        }
    }

    /// The bytes of pixel `(x, y)` with the colour channels inverted.
    pub open spec fn inverted_byte(&self, x: int, y: int, comp: int) -> u8 {
        if self.fmt == PixFmt::Rgb565 || comp < 3 {
            !self.px(x, y, comp)
        } else {
            self.px(x, y, comp)
        }
    }

    /// Invert the RGB of a rectangle, clipped to the surface (cursor / pressed-key feedback).
    pub fn invert_rect(&mut self, x: usize, y: usize, w: usize, h: usize)
        requires
            old(self).wf(),
            x + w <= usize::MAX,
            y + h <= usize::MAX,
            old(self).fmt == PixFmt::Rgb565 && y < old(self).h && h > 0 ==> x <= old(self).w,
        ensures
            final(self).wf(),
            old(self).same_geometry(&*final(self)),
            old(self).rewritten(final(self)@, |px: int, py: int| x <= px < x + w && y <= py < y + h,
                |px: int, py: int, comp: int| old(self).inverted_byte(px, py, comp)),
    {
        let x1 = if x + w < self.w { x + w } else { self.w };
        let y1 = if y + h < self.h { y + h } else { self.h };
        let ghost start = *self;
        let ghost g = |px: int, py: int, comp: int| start.inverted_byte(px, py, comp);
        if x >= x1 || y >= y1 {
            proof {
                start.lemma_rewrite_same(self@, |px: int, py: int| false,
                    |px: int, py: int| x <= px < x + w && y <= py < y + h, g, g);
            }
            return;
        }
        let mut row = y;
        while row < y1
            invariant
                y <= row <= y1,
                x < x1 <= start.w,
                y1 <= start.h,
                self.wf(),
                start.same_geometry(&*self),
                g == (|px: int, py: int, comp: int| start.inverted_byte(px, py, comp)),
                start.rewritten(self@, |px: int, py: int| x <= px < x1 && y <= py < row, g),
            decreases y1 - row,
        {
            let mut col = x;
            while col < x1
                invariant
                    x <= col <= x1,
                    x1 <= start.w,
                    start.wf(),
                    y <= row < y1,
                    y1 <= start.h,
                    self.wf(),
                    start.same_geometry(&*self),
                g == (|px: int, py: int, comp: int| start.inverted_byte(px, py, comp)),
                    start.rewritten(self@, |px: int, py: int| (x <= px < x1 && y <= py < row) || (py == row && x <= px < col), g),
                decreases x1 - col,
            {
                let ghost mid = *self;
                let b = self.bpp();
                proof {
                    start.lemma_index(col as int, row as int, 0);
                    start.lemma_index(col as int, row as int, b - 1);
                }
                let i = row * self.stride + col * b;
                let mut v: [u8; 4] = [0u8; 4];
                let mut c: usize = 0;
                while c < b
                    invariant
                        c <= b <= 4,
                        start.wf(),
                        b == start.bpp_spec(),
                        i == start.index_of(col as int, row as int, 0),
                        i + b <= self@.len(),
                        self@.len() == start@.len(),
                        mid == *self,
                        start.same_geometry(&mid),
                        g == (|px: int, py: int, comp: int| start.inverted_byte(px, py, comp)),
                        start.rewritten(mid@, |px: int, py: int| (x <= px < x1 && y <= py < row) || (py == row && x <= px < col), g),
                        col < start.w,
                        row < start.h,
                        forall|cc: int| 0 <= cc < c ==> #[trigger] v@[cc] == g(col as int, row as int, cc),
                    decreases b - c,
                {
                    proof {
                        start.lemma_index(col as int, row as int, c as int);
                    }
                    let cur = self.buf[i + c];
                    assert(cur == start.px(col as int, row as int, c as int));
                    let ghost vprev = v;
                    let nv = if c < 3 || b == 2 { !cur } else { cur };
                    v[c] = nv;
                    assert(v@[c as int] == nv);
                    assert(b == 2 <==> start.fmt == PixFmt::Rgb565);
                    assert(nv == start.inverted_byte(col as int, row as int, c as int));
                    assert(g(col as int, row as int, c as int) == nv);
                    assert forall|cc: int| 0 <= cc < c + 1 implies #[trigger] v@[cc] == g(col as int, row as int, cc) by {
                        if cc < c {
                            assert(v@[cc] == vprev@[cc]);
                        }
                    }
                    c += 1;
                }
                self.write_pixel(col, row, &v, Ghost(g));
                proof {
                    start.lemma_rewrite_compose(&mid, self@,
                        |px: int, py: int| (x <= px < x1 && y <= py < row) || (py == row && x <= px < col),
                        |px: int, py: int| px == col && py == row, g);
                    start.lemma_rewrite_same(self@,
                        |px: int, py: int| ((x <= px < x1 && y <= py < row) || (py == row && x <= px < col)) || (px == col && py == row),
                        |px: int, py: int| (x <= px < x1 && y <= py < row) || (py == row && x <= px < col + 1), g, g);
                }
                col += 1;
            }
            proof {
                start.lemma_rewrite_same(self@,
                    |px: int, py: int| (x <= px < x1 && y <= py < row) || (py == row && x <= px < col),
                    |px: int, py: int| x <= px < x1 && y <= py < row + 1, g, g);
            }
            row += 1;
        }
        proof {
            start.lemma_rewrite_same(self@,
                |px: int, py: int| x <= px < x1 && y <= py < row,
                |px: int, py: int| x <= px < x + w && y <= py < y + h, g, g);
        }
    }

    /// Right edge of a rectangle starting at `x` of width `w`, clipped to the surface.
    pub open spec fn clip_x(&self, x: int, w: int) -> int {
        if x + w < self.w { x + w } else { self.w as int }
    }

    /// Bottom edge of a rectangle starting at `y` of height `h`, clipped to the surface.
    pub open spec fn clip_y(&self, y: int, h: int) -> int {
        if y + h < self.h { y + h } else { self.h as int }
    }

    /// The bytes of row `row` from pixel `x` up to pixel `x1`.
    pub open spec fn row_bytes(&self, x: int, x1: int, row: int) -> Seq<u8> {
        self@.subrange(row * self.stride + x * self.bpp_spec(), row * self.stride + x1 * self.bpp_spec())
    }

    /// Rows `y .. y + n` of the columns `x .. x1`, one after the other.
    pub open spec fn saved(&self, x: int, x1: int, y: int, n: int) -> Seq<u8>
        decreases n,
    {
        if n <= 0 {
            Seq::empty()
        } else {
            self.saved(x, x1, y, n - 1) + self.row_bytes(x, x1, y + n - 1)
        }
    }

    /// The bytes `copy_rect(x, y, w, h)` returns.
    pub open spec fn copy_spec(&self, x: int, y: int, w: int, h: int) -> Seq<u8> {
        self.saved(x, self.clip_x(x, w), y, self.clip_y(y, h) - y)
    }

    proof fn lemma_row_span(&self, row: int, x: int, x1: int)
        requires
            self.wf(),
            0 <= row < self.h,
            0 <= x <= x1 <= self.w,
        ensures
            0 <= row * self.stride + x * self.bpp_spec(),
            row * self.stride + x * self.bpp_spec() <= row * self.stride + x1 * self.bpp_spec(),
            row * self.stride + x1 * self.bpp_spec() <= self@.len(),
            (x1 - x) * self.bpp_spec() <= self.stride,
            (x1 - x) * self.bpp_spec() == x1 * self.bpp_spec() - x * self.bpp_spec(),
            self.row_bytes(x, x1, row).len() == (x1 - x) * self.bpp_spec(),
            (x1 - x) * self.bpp_spec() >= 0,
    {
        let b = self.bpp_spec();
        let s = self.stride as int;
        lemma_mul_inequality(x, x1, b);
        lemma_mul_inequality(x1, self.w as int, b);
        lemma_mul_inequality(row, self.h - 1, s);
        assert(row * s >= 0) by (nonlinear_arith)
            requires
                row >= 0,
                s >= 0,
        ;
        assert(x * b >= 0) by (nonlinear_arith)
            requires
                x >= 0,
                b >= 0,
        ;
        assert((x1 - x) * b == x1 * b - x * b) by (nonlinear_arith);
    }

    proof fn lemma_saved_len(&self, x: int, x1: int, y: int, n: int)
        requires
            self.wf(),
            0 <= x <= x1 <= self.w,
            0 <= y,
            0 <= n,
            y + n <= self.h,
        ensures
            self.saved(x, x1, y, n).len() == n * ((x1 - x) * self.bpp_spec()),
        decreases n,
    {
        if n > 0 {
            self.lemma_saved_len(x, x1, y, n - 1);
            self.lemma_row_span(y + n - 1, x, x1);
            let rl = (x1 - x) * self.bpp_spec();
            assert(n * rl == (n - 1) * rl + rl) by (nonlinear_arith);
            assert(self.saved(x, x1, y, n).len() == self.saved(x, x1, y, n - 1).len() + self.row_bytes(x, x1, y + n - 1).len());
        } else {
            assert(n * ((x1 - x) * self.bpp_spec()) == 0) by (nonlinear_arith)
                requires
                    n == 0,
            ;
        }
    }

    proof fn lemma_saved_index(&self, x: int, x1: int, y: int, n: int, r: int, q: int)
        requires
            self.wf(),
            0 <= x <= x1 <= self.w,
            0 <= y,
            y + n <= self.h,
            0 <= r < n,
            0 <= q < (x1 - x) * self.bpp_spec(),
        ensures
            0 <= r * ((x1 - x) * self.bpp_spec()) + q < self.saved(x, x1, y, n).len(),
            self.saved(x, x1, y, n)[r * ((x1 - x) * self.bpp_spec()) + q] == self@[(y + r) * self.stride + x
                * self.bpp_spec() + q],
        decreases n,
    {
        let rl = (x1 - x) * self.bpp_spec();
        self.lemma_saved_len(x, x1, y, n - 1);
        self.lemma_row_span(y + n - 1, x, x1);
        assert(r * rl >= 0) by (nonlinear_arith)
            requires
                r >= 0,
                rl >= 0,
        ;
        if r < n - 1 {
            self.lemma_saved_index(x, x1, y, n - 1, r, q);
            assert((n - 1) * rl >= (r + 1) * rl) by (nonlinear_arith)
                requires
                    r + 1 <= n - 1,
                    rl >= 0,
            ;
            assert((r + 1) * rl == r * rl + rl) by (nonlinear_arith);
        } else {
            assert(r * rl == (n - 1) * rl);
        }
    }

    /// Snapshot a rectangle's raw bytes, clipped to the surface, row after row
    /// (for save-under panels).
    pub fn copy_rect(&self, x: usize, y: usize, w: usize, h: usize) -> (out: Vec<u8>)
        requires
            self.wf(),
            x + w <= usize::MAX,
            y + h <= usize::MAX,
            x <= self.w,
            y <= self.h,
        ensures
            out@ == self.copy_spec(x as int, y as int, w as int, h as int),
            out@.len() == (self.clip_y(y as int, h as int) - y) * ((self.clip_x(x as int, w as int) - x) * self.bpp_spec()),
    {
        let x1 = if x + w < self.w { x + w } else { self.w };
        let y1 = if y + h < self.h { y + h } else { self.h };
        let bpp = self.bpp();
        let mut out: Vec<u8> = Vec::new();
        let mut row = y;
        while row < y1
            invariant
                y <= row <= y1,
                y1 <= self.h,
                x <= x1 <= self.w,
                x1 == self.clip_x(x as int, w as int),
                y1 == self.clip_y(y as int, h as int),
                bpp == self.bpp_spec(),
                self.wf(),
                out@ == self.saved(x as int, x1 as int, y as int, row - y),
            decreases y1 - row,
        {
            proof {
                self.lemma_row_span(row as int, x as int, x1 as int);
            }
            let s = row * self.stride + x * bpp;
            let e = row * self.stride + x1 * bpp;
            let ghost base = out@;
            let mut i = s;
            while i < e
                invariant
                    s <= i <= e,
                    e <= self@.len(),
                    out@ == base + self@.subrange(s as int, i as int),
                decreases e - i,
            {
                out.push(self.buf[i]);
                assert(self@.subrange(s as int, i + 1) =~= self@.subrange(s as int, i as int).push(self@[i as int]));
                i += 1;
            }
            assert(self.saved(x as int, x1 as int, y as int, row + 1 - y) =~= base + self.row_bytes(x as int, x1 as int, row as int));
            row += 1;
        }
        proof {
            self.lemma_saved_len(x as int, x1 as int, y as int, y1 - y);
        }
        out
    }

    /// What `paste_rect(x, y, w, h, data)` leaves: when the clipped rectangle is
    /// empty or `data` holds fewer bytes than it needs, the surface unchanged;
    /// otherwise each pixel of the clipped rectangle takes its bytes from `data`,
    /// laid out row after row as `copy_rect` returns them.
    pub open spec fn pasted(&self, after: Seq<u8>, x: int, y: int, w: int, h: int, data: Seq<u8>) -> bool {
        let x1 = self.clip_x(x, w);
        let y1 = self.clip_y(y, h);
        let rl = (x1 - x) * self.bpp_spec();
        if x >= x1 || y >= y1 || data.len() < (y1 - y) * rl {
            after == self@
        } else {
            self.rewritten(after, |px: int, py: int| x <= px < x + w && y <= py < y + h,
                |px: int, py: int, comp: int| data[(py - y) * rl + (px - x) * self.bpp_spec() + comp])
        }
    }

    /// Put back bytes captured by `copy_rect` with the same geometry; a `data`
    /// too short for the clipped rectangle is refused and nothing changes.
    pub fn paste_rect(&mut self, x: usize, y: usize, w: usize, h: usize, data: &[u8])
        requires
            old(self).wf(),
            x + w <= usize::MAX,
            y + h <= usize::MAX,
        ensures
            final(self).wf(),
            old(self).same_geometry(&*final(self)),
            old(self).pasted(final(self)@, x as int, y as int, w as int, h as int, data@),
    {
        let x1 = if x + w < self.w { x + w } else { self.w };
        let y1 = if y + h < self.h { y + h } else { self.h };
        if x >= x1 || y >= y1 {
            return;
        }
        let bpp = self.bpp();
        let ghost start = *self;
        proof {
            start.lemma_row_span(y1 - 1, x as int, x1 as int);
            start.lemma_row_span(y as int, x as int, x1 as int);
            let rl = (x1 - x) * bpp;
            lemma_mul_inequality(y1 - y - 1, start.h - 1, rl);
            lemma_mul_inequality(rl, start.stride as int, start.h - 1);
            assert((y1 - y) * rl == (y1 - y - 1) * rl + rl) by (nonlinear_arith);
            assert((start.h - 1) * rl == rl * (start.h - 1)) by (nonlinear_arith);
            assert((start.h - 1) * start.stride == start.stride * (start.h - 1)) by (nonlinear_arith);
            lemma_mul_inequality(x1 as int, start.w as int, bpp as int);
        }
        let row_len = (x1 - x) * bpp;
        let dlen = data.len();
        if dlen < (y1 - y) * row_len {
            return;
        }
        let ghost rl = row_len as int;
        let ghost g = |px: int, py: int, comp: int| data@[(py - y) * rl + (px - x) * (bpp as int) + comp];
        let mut row = y;
        while row < y1
            invariant
                y <= row <= y1,
                x < x1 <= start.w,
                y1 <= start.h,
                bpp == start.bpp_spec(),
                rl == row_len,
                row_len == (x1 - x) * bpp,
                data@.len() >= (y1 - y) * row_len,
                data@.len() <= usize::MAX,
                self.wf(),
                start.wf(),
                start.same_geometry(&*self),
                g == (|px: int, py: int, comp: int| data@[(py - y) * rl + (px - x) * (bpp as int) + comp]),
                start.rewritten(self@, |px: int, py: int| x <= px < x1 && y <= py < row, g),
            decreases y1 - row,
        {
            let mut col = x;
            while col < x1
                invariant
                    x <= col <= x1,
                    x1 <= start.w,
                    y <= row < y1,
                    y1 <= start.h,
                    bpp == start.bpp_spec(),
                    rl == row_len,
                    row_len == (x1 - x) * bpp,
                    data@.len() >= (y1 - y) * row_len,
                data@.len() <= usize::MAX,
                    self.wf(),
                    start.wf(),
                    start.same_geometry(&*self),
                    g == (|px: int, py: int, comp: int| data@[(py - y) * rl + (px - x) * (bpp as int) + comp]),
                    start.rewritten(self@, |px: int, py: int| (x <= px < x1 && y <= py < row) || (py == row && x <= px < col), g),
                decreases x1 - col,
            {
                let ghost mid = *self;
                proof {
                    let r = row - y;
                    let q = (col - x) * bpp + bpp;
                    lemma_mul_inequality(r + 1, y1 - y, rl);
                    lemma_mul_inequality(col - x + 1, x1 - x, bpp as int);
                    assert((r + 1) * rl == r * rl + rl) by (nonlinear_arith);
                    assert((col - x + 1) * bpp == (col - x) * bpp + bpp) by (nonlinear_arith);
                    assert(r * rl >= 0) by (nonlinear_arith)
                        requires
                            r >= 0,
                            rl >= 0,
                    ;
                    assert((col - x) * bpp >= 0) by (nonlinear_arith)
                        requires
                            col - x >= 0,
                            bpp >= 0,
                    ;
                }
                let base = (row - y) * row_len + (col - x) * bpp;
                let mut v: [u8; 4] = [0u8; 4];
                let mut c: usize = 0;
                while c < bpp
                    invariant
                        c <= bpp <= 4,
                        base == (row - y) * rl + (col - x) * (bpp as int),
                        base + bpp <= data@.len(),
                        data@.len() <= usize::MAX,
                        g == (|px: int, py: int, comp: int| data@[(py - y) * rl + (px - x) * (bpp as int) + comp]),
                        forall|cc: int| 0 <= cc < c ==> #[trigger] v@[cc] == g(col as int, row as int, cc),
                    decreases bpp - c,
                {
                    let ghost vprev = v;
                    v[c] = data[base + c];
                    assert forall|cc: int| 0 <= cc < c + 1 implies #[trigger] v@[cc] == g(col as int, row as int, cc) by {
                        if cc < c {
                            assert(v@[cc] == vprev@[cc]);
                        }
                    }
                    c += 1;
                }
                self.write_pixel(col, row, &v, Ghost(g));
                proof {
                    start.lemma_rewrite_compose(&mid, self@,
                        |px: int, py: int| (x <= px < x1 && y <= py < row) || (py == row && x <= px < col),
                        |px: int, py: int| px == col && py == row, g);
                    start.lemma_rewrite_same(self@,
                        |px: int, py: int| ((x <= px < x1 && y <= py < row) || (py == row && x <= px < col)) || (px == col && py == row),
                        |px: int, py: int| (x <= px < x1 && y <= py < row) || (py == row && x <= px < col + 1), g, g);
                }
                col += 1;
            }
            proof {
                start.lemma_rewrite_same(self@,
                    |px: int, py: int| (x <= px < x1 && y <= py < row) || (py == row && x <= px < col),
                    |px: int, py: int| x <= px < x1 && y <= py < row + 1, g, g);
            }
            row += 1;
        }
        proof {
            start.lemma_rewrite_same(self@,
                |px: int, py: int| x <= px < x1 && y <= py < row,
                |px: int, py: int| x <= px < x + w && y <= py < y + h, g,
                |px: int, py: int, comp: int| data@[(py - y) * rl + (px - x) * start.bpp_spec() + comp]);
        }
    }
}

} // verus!

verus! {

/// Save-under: bytes copied from a rectangle with `copy_rect` and pasted back
/// with `paste_rect` onto a surface of the same geometry give every pixel of
/// the (clipped) rectangle exactly the bytes it had when copied, and leave every
/// other byte as it was before the paste.
pub proof fn lemma_copy_paste_restores(s1: &Surface, s2: &Surface, after: Seq<u8>, x: int, y: int, w: int, h: int)
    requires
        s1.wf(),
        s1.same_geometry(s2),
        0 <= x <= s1.w,
        0 <= y <= s1.h,
        0 <= w,
        0 <= h,
        s2.pasted(after, x, y, w, h, s1.copy_spec(x, y, w, h)),
    ensures
        s2.rewritten(after, |px: int, py: int| x <= px < x + w && y <= py < y + h, |px: int, py: int, c: int| s1.px(px, py, c)),
{
    let x1 = s1.clip_x(x, w);
    let y1 = s1.clip_y(y, h);
    let b = s1.bpp_spec();
    let rl = (x1 - x) * b;
    let data = s1.copy_spec(x, y, w, h);
    let target = |px: int, py: int, c: int| s1.px(px, py, c);
    let rect = |px: int, py: int| x <= px < x + w && y <= py < y + h;
    s1.lemma_saved_len(x, x1, y, y1 - y);
    if x >= x1 || y >= y1 {
        s2.lemma_rewrite_same(after, |px: int, py: int| false, rect, target, target);
    } else {
        let g = |px: int, py: int, comp: int| data[(py - y) * rl + (px - x) * b + comp];
        assert forall|px: int, py: int, c: int| 0 <= px < s2.w && 0 <= py < s2.h && 0 <= c < s2.bpp_spec() && rect(px, py)
            implies #[trigger] g(px, py, c) == target(px, py, c) by {
            let q = (px - x) * b + c;
            lemma_mul_inequality(px - x + 1, x1 - x, b);
            assert((px - x + 1) * b == (px - x) * b + b) by (nonlinear_arith);
            assert((px - x) * b >= 0) by (nonlinear_arith)
                requires
                    px - x >= 0,
                    b >= 0,
            ;
            s1.lemma_saved_index(x, x1, y, y1 - y, py - y, q);
            assert((py - y + y) * s1.stride + x * b + q == py * s1.stride + px * b + c) by (nonlinear_arith)
                requires
                    q == (px - x) * b + c,
            ;
        }
        s2.lemma_rewrite_same(after, rect, rect, g, target);
    }
}

} // verus!

verus! {

/// The green channel of a little-endian RGB565 pixel, widened to 0..=255.
pub open spec fn green565(lo: u8, hi: u8) -> u8 {
    ((((((lo as u16) | ((hi as u16) << 8u16)) >> 5u16) & 0x3fu16) as int) * 255 / 63) as u8
}

/// Integer division rounding toward zero (for a positive divisor).
pub open spec fn trunc_div(a: int, b: int) -> int {
    if a >= 0 {
        a / b
    } else {
        -((-a) / b)
    }
}

/// Pixel `(px, py)` lies in the filled disk of radius `r` around `(cx, cy)`.
pub open spec fn in_disk(cx: int, cy: int, r: int, px: int, py: int) -> bool {
    &&& -r <= px - cx <= r
    &&& -r <= py - cy <= r
    &&& (px - cx) * (px - cx) + (py - cy) * (py - cy) <= r * r
}

/// Number of steps a brush line from `(x0, y0)` to `(x1, y1)` takes.
pub open spec fn line_steps(x0: int, y0: int, x1: int, y1: int) -> int {
    let dx = if x1 - x0 >= 0 { x1 - x0 } else { x0 - x1 };
    let dy = if y1 - y0 >= 0 { y1 - y0 } else { y0 - y1 };
    let m = if dx >= dy { dx } else { dy };
    if m >= 1 { m } else { 1 }
}

/// The `i`-th point of a brush line, interpolated with rounding toward zero.
pub open spec fn line_point(x0: int, y0: int, x1: int, y1: int, i: int) -> (int, int) {
    let n = line_steps(x0, y0, x1, y1);
    (x0 + trunc_div((x1 - x0) * i, n), y0 + trunc_div((y1 - y0) * i, n))
}

/// Pixel `(px, py)` is covered by the disk stamped at one of the first `count` points of the line.
pub open spec fn on_line_upto(x0: int, y0: int, x1: int, y1: int, r: int, count: int, px: int, py: int) -> bool {
    exists|i: int| 0 <= i < count && #[trigger] in_disk(line_point(x0, y0, x1, y1, i).0, line_point(x0, y0, x1, y1, i).1, r, px, py)
}

/// `|v|`.
pub open spec fn abs_int(v: int) -> int {
    if v >= 0 { v } else { -v }
}

/// A brush line from `(x0, y0)` to `(x1, y1)` with radius `r` stays within
/// `i32` arithmetic: each axis' travel times the step count fits, and, for a
/// non-negative radius, every stamped disk (whose centres lie between the two
/// ends) stays within `i32` coordinates.
pub open spec fn brush_fits(x0: int, y0: int, x1: int, y1: int, r: int) -> bool {
    let n = line_steps(x0, y0, x1, y1);
    &&& abs_int(x1 - x0) * n <= i32::MAX
    &&& abs_int(y1 - y0) * n <= i32::MAX
    &&& i32::MIN < r <= 32767
    &&& r >= 0 ==> {
        &&& i32::MIN <= x0 - r && i32::MIN <= x1 - r && x0 + r <= i32::MAX && x1 + r <= i32::MAX
        &&& i32::MIN <= y0 - r && i32::MIN <= y1 - r && y0 + r <= i32::MAX && y1 + r <= i32::MAX
    }
}

impl Surface {
    /// Luminance 0..=255 of pixel `(x, y)`, 255 (paper) off the surface.
    pub open spec fn luma_spec(&self, x: int, y: int) -> u8 {
        if 0 <= x < self.w && 0 <= y < self.h {
            match self.fmt {
                PixFmt::Rgb565 => green565(self.px(x, y, 0), self.px(x, y, 1)),
                PixFmt::Rgb32 => self.px(x, y, 1),
            }
        } else {
            255
        }
    }

    /// The luminance `luma` reads back from a pixel of colour `c`: the green
    /// channel, widened as the format stores it.
    pub open spec fn colour_luma(f: PixFmt, c: u16) -> u8 {
        match f {
            PixFmt::Rgb565 => ((((c >> 5u16) & 0x3fu16) as int) * 255 / 63) as u8,
            PixFmt::Rgb32 => expand_spec(c).1,
        }
    }

    /// Reading a pixel back right after writing it: once `put_px(x, y, c)` has
    /// painted an on-surface pixel, `luma(x, y)` is the green channel of `c`.
    pub proof fn lemma_luma_after_put_px(&self, after: &Surface, x: int, y: int, c: u16)
        requires
            self.wf(),
            self.same_geometry(after),
            self.painted(after@, c, |px: int, py: int| px == x && py == y),
            0 <= x < self.w,
            0 <= y < self.h,
        ensures
            after.luma_spec(x, y) == Surface::colour_luma(self.fmt, c),
    {
        self.lemma_index(x, y, 0);
        self.lemma_index(x, y, 1);
        let i0 = self.index_of(x, y, 0);
        let i1 = self.index_of(x, y, 1);
        assert(after@[i0] == px_byte(self.fmt, c, 0));
        assert(after@[i1] == px_byte(self.fmt, c, 1));
        assert(after.index_of(x, y, 0) == i0 && after.index_of(x, y, 1) == i1);
        match self.fmt {
            PixFmt::Rgb565 => {
                let lo = (c & 0xffu16) as u8;
                let hi = (c >> 8u16) as u8;
                assert(((lo as u16) | ((hi as u16) << 8u16)) == c) by (bit_vector)
                    requires
                        lo == (c & 0xffu16) as u8,
                        hi == (c >> 8u16) as u8,
                ;
            },
            PixFmt::Rgb32 => {},
        }
    }

    /// Luminance 0..=255, used for the ink test: the green channel, which
    /// approximates luma well enough for mono ink.
    pub fn luma(&self, x: i32, y: i32) -> (l: u8)
        requires
            self.wf(),
        ensures
            l == self.luma_spec(x as int, y as int),
    {
        if x < 0 || y < 0 || x >= self.w as i32 || y >= self.h as i32 {
            return 255;
        }
        proof {
            self.lemma_index(x as int, y as int, 0);
            self.lemma_index(x as int, y as int, self.bpp_spec() - 1);
        }
        match self.fmt {
            PixFmt::Rgb565 => {
                let i = y as usize * self.stride + x as usize * 2;
                let px = (self.buf[i] as u16) | ((self.buf[i + 1] as u16) << 8u16);
                (((px >> 5u16) & 0x3fu16) as u32 * 255 / 63) as u8
            },
            PixFmt::Rgb32 => {
                let i = y as usize * self.stride + x as usize * 4;
                self.buf[i + 1]
            },
        }
    }

    /// Stamp a filled disk of radius `r` centred on `(cx, cy)`, clipped to the surface.
    pub fn stamp(&mut self, cx: i32, cy: i32, r: i32, c: u16)
        requires
            old(self).wf(),
            i32::MIN < r <= 32767,
            r >= 0 ==> i32::MIN <= cx - r && cx + r <= i32::MAX && i32::MIN <= cy - r && cy + r <= i32::MAX,
        ensures
            final(self).wf(),
            old(self).same_geometry(&*final(self)),
            old(self).painted(final(self)@, c, |px: int, py: int| in_disk(cx as int, cy as int, r as int, px, py)),
    {
        let ghost start = *self;
        proof {
            start.lemma_paint_nothing(c);
        }
        if r < 0 {
            proof {
                start.lemma_paint_same(self@, c, |px: int, py: int| false,
                    |px: int, py: int| in_disk(cx as int, cy as int, r as int, px, py));
            }
            return;
        }
        let mut dy: i32 = -r;
        proof {
            start.lemma_paint_same(self@, c, |px: int, py: int| false,
                |px: int, py: int| in_disk(cx as int, cy as int, r as int, px, py) && py - cy < dy);
        }
        while dy <= r
            invariant
                0 <= r <= 32767,
                -r <= dy <= r + 1,
                i32::MIN <= cx - r && cx + r <= i32::MAX && i32::MIN <= cy - r && cy + r <= i32::MAX,
                self.wf(),
                start.wf(),
                start.same_geometry(&*self),
                start.painted(self@, c, |px: int, py: int| in_disk(cx as int, cy as int, r as int, px, py) && py - cy < dy),
            decreases r + 1 - dy,
        {
            let mut dx: i32 = -r;
            proof {
                start.lemma_paint_same(self@, c,
                    |px: int, py: int| in_disk(cx as int, cy as int, r as int, px, py) && py - cy < dy,
                    |px: int, py: int| in_disk(cx as int, cy as int, r as int, px, py) && (py - cy < dy || (py - cy == dy && px - cx < dx)));
            }
            while dx <= r
                invariant
                    0 <= r <= 32767,
                    -r <= dy <= r,
                    -r <= dx <= r + 1,
                    i32::MIN <= cx - r && cx + r <= i32::MAX && i32::MIN <= cy - r && cy + r <= i32::MAX,
                    self.wf(),
                    start.wf(),
                    start.same_geometry(&*self),
                    start.painted(self@, c, |px: int, py: int| in_disk(cx as int, cy as int, r as int, px, py)
                        && (py - cy < dy || (py - cy == dy && px - cx < dx))),
                decreases r + 1 - dx,
            {
                assert(dx * dx <= 32767 * 32767) by (nonlinear_arith)
                    requires
                        -32767 <= dx <= 32767,
                ;
                assert(dy * dy <= 32767 * 32767) by (nonlinear_arith)
                    requires
                        -32767 <= dy <= 32767,
                ;
                assert(dx * dx >= 0 && dy * dy >= 0 && r * r >= 0) by (nonlinear_arith);
                assert(r * r <= 32767 * 32767) by (nonlinear_arith)
                    requires
                        0 <= r <= 32767,
                ;
                let ghost mid = *self;
                if dx * dx + dy * dy <= r * r {
                    self.put_px(cx + dx, cy + dy, c);
                    proof {
                        start.lemma_paint_compose(&mid, self@, c,
                            |px: int, py: int| in_disk(cx as int, cy as int, r as int, px, py) && (py - cy < dy || (py - cy == dy
                                && px - cx < dx)),
                            |px: int, py: int| px == cx + dx && py == cy + dy);
                        start.lemma_paint_same(self@, c,
                            |px: int, py: int| (in_disk(cx as int, cy as int, r as int, px, py) && (py - cy < dy || (py - cy == dy
                                && px - cx < dx))) || (px == cx + dx && py == cy + dy),
                            |px: int, py: int| in_disk(cx as int, cy as int, r as int, px, py) && (py - cy < dy || (py - cy == dy
                                && px - cx < dx + 1)));
                    }
                } else {
                    proof {
                        start.lemma_paint_same(self@, c,
                            |px: int, py: int| in_disk(cx as int, cy as int, r as int, px, py) && (py - cy < dy || (py - cy == dy
                                && px - cx < dx)),
                            |px: int, py: int| in_disk(cx as int, cy as int, r as int, px, py) && (py - cy < dy || (py - cy == dy
                                && px - cx < dx + 1)));
                    }
                }
                dx += 1;
            }
            proof {
                start.lemma_paint_same(self@, c,
                    |px: int, py: int| in_disk(cx as int, cy as int, r as int, px, py) && (py - cy < dy || (py - cy == dy && px - cx < dx)),
                    |px: int, py: int| in_disk(cx as int, cy as int, r as int, px, py) && py - cy < dy + 1);
            }
            dy += 1;
        }
        proof {
            start.lemma_paint_same(self@, c,
                |px: int, py: int| in_disk(cx as int, cy as int, r as int, px, py) && py - cy < dy,
                |px: int, py: int| in_disk(cx as int, cy as int, r as int, px, py));
        }
    }
}

} // verus!

verus! {

proof fn lemma_trunc_bound(d: int, i: int, n: int)
    requires
        1 <= n,
        0 <= i <= n,
    ensures
        d >= 0 ==> 0 <= trunc_div(d * i, n) <= d,
        d < 0 ==> d <= trunc_div(d * i, n) <= 0,
{
    let a = if d >= 0 { d } else { -d };
    assert(0 <= a * i <= a * n) by (nonlinear_arith)
        requires
            a >= 0,
            0 <= i <= n,
    ;
    vstd::arithmetic::div_mod::lemma_div_is_ordered(a * i, a * n, n);
    vstd::arithmetic::div_mod::lemma_div_by_multiple(a, n);
    vstd::arithmetic::div_mod::lemma_div_pos_is_pos(a * i, n);
    if d >= 0 {
        assert(d * i == a * i);
    } else {
        assert(d * i == -(a * i)) by (nonlinear_arith)
            requires
                a == -d,
        ;
    }
}

/// Whether a brush line (or, with both ends equal, a single stamp) from
/// `(x0, y0)` to `(x1, y1)` with radius `r` stays within `i32` arithmetic.
pub fn brush_line_fits(x0: i32, y0: i32, x1: i32, y1: i32, r: i32) -> (b: bool)
    ensures
        b == brush_fits(x0 as int, y0 as int, x1 as int, y1 as int, r as int),
{
    let ax: i64 = if x1 as i64 - x0 as i64 >= 0 { x1 as i64 - x0 as i64 } else { x0 as i64 - x1 as i64 };
    let ay: i64 = if y1 as i64 - y0 as i64 >= 0 { y1 as i64 - y0 as i64 } else { y0 as i64 - y1 as i64 };
    let m: i64 = if ax >= ay { ax } else { ay };
    let n: i64 = if m >= 1 { m } else { 1 };
    assert(n == line_steps(x0 as int, y0 as int, x1 as int, y1 as int));
    if ax > 0x7FFF_FFFF || ay > 0x7FFF_FFFF {
        assert(ax * n >= ax && ay * n >= ay) by (nonlinear_arith)
            requires
                ax >= 0,
                ay >= 0,
                n >= 1,
        ;
        return false;
    }
    assert(0 <= ax * n <= 0x7FFF_FFFF * 0x7FFF_FFFF) by (nonlinear_arith)
        requires
            0 <= ax <= 0x7FFF_FFFF,
            1 <= n <= 0x7FFF_FFFF,
    ;
    assert(0 <= ay * n <= 0x7FFF_FFFF * 0x7FFF_FFFF) by (nonlinear_arith)
        requires
            0 <= ay <= 0x7FFF_FFFF,
            1 <= n <= 0x7FFF_FFFF,
    ;
    if ax * n > i32::MAX as i64 || ay * n > i32::MAX as i64 {
        return false;
    }
    if r == i32::MIN || r > 32767 {
        return false;
    }
    if r < 0 {
        return true;
    }
    let (r64, lo, hi) = (r as i64, i32::MIN as i64, i32::MAX as i64);
    lo <= x0 as i64 - r64 && lo <= x1 as i64 - r64 && x0 as i64 + r64 <= hi && x1 as i64 + r64 <= hi
        && lo <= y0 as i64 - r64 && lo <= y1 as i64 - r64 && y0 as i64 + r64 <= hi && y1 as i64 + r64 <= hi
}

impl Surface {
    /// A thick line: disks of radius `r` stamped at evenly spaced points from
    /// `(x0, y0)` to `(x1, y1)`, one per pixel of the longer axis.
    pub fn brush_line(&mut self, x0: i32, y0: i32, x1: i32, y1: i32, r: i32, c: u16)
        requires
            old(self).wf(),
            brush_fits(x0 as int, y0 as int, x1 as int, y1 as int, r as int),
        ensures
            final(self).wf(),
            old(self).same_geometry(&*final(self)),
            old(self).painted(final(self)@, c, |px: int, py: int| on_line_upto(x0 as int, y0 as int, x1 as int, y1 as int,
                r as int, line_steps(x0 as int, y0 as int, x1 as int, y1 as int) + 1, px, py)),
    {
        let ghost start = *self;
        let ghost (gx0, gy0, gx1, gy1, gr) = (x0 as int, y0 as int, x1 as int, y1 as int, r as int);
        proof {
            let n = line_steps(gx0, gy0, gx1, gy1);
            let ax = abs_int(gx1 - gx0);
            let ay = abs_int(gy1 - gy0);
            assert(n * n <= i32::MAX) by (nonlinear_arith)
                requires
                    ax * n <= i32::MAX,
                    ay * n <= i32::MAX,
                    n == ax || n == ay || n == 1,
                    n >= 1,
            ;
            assert(n <= 46340) by (nonlinear_arith)
                requires
                    n * n <= i32::MAX,
                    n >= 1,
            ;
        }
        let dx = if x1 - x0 >= 0 { x1 - x0 } else { x0 - x1 };
        let dy = if y1 - y0 >= 0 { y1 - y0 } else { y0 - y1 };
        let m = if dx >= dy { dx } else { dy };
        let steps = if m >= 1 { m } else { 1 };
        assert(steps == line_steps(gx0, gy0, gx1, gy1));
        proof {
            start.lemma_paint_nothing(c);
            start.lemma_paint_same(self@, c, |px: int, py: int| false,
                |px: int, py: int| on_line_upto(gx0, gy0, gx1, gy1, gr, 0, px, py));
        }
        let mut i: i32 = 0;
        while i <= steps
            invariant
                0 <= i <= steps + 1,
                1 <= steps <= 46340,
                steps == line_steps(gx0, gy0, gx1, gy1),
                gx0 == x0,
                gy0 == y0,
                gx1 == x1,
                gy1 == y1,
                gr == r,
                brush_fits(x0 as int, y0 as int, x1 as int, y1 as int, r as int),
                self.wf(),
                start.wf(),
                start.same_geometry(&*self),
                start.painted(self@, c, |px: int, py: int| on_line_upto(gx0, gy0, gx1, gy1, gr, i as int, px, py)),
            decreases steps + 1 - i,
        {
            assert(-i32::MAX <= (x1 - x0) * i <= i32::MAX) by (nonlinear_arith)
                requires
                    abs_int(x1 - x0) * steps <= i32::MAX,
                    0 <= i <= steps,
            ;
            assert(-i32::MAX <= (y1 - y0) * i <= i32::MAX) by (nonlinear_arith)
                requires
                    abs_int(y1 - y0) * steps <= i32::MAX,
                    0 <= i <= steps,
            ;
            let qx = (x1 - x0) * i / steps;
            let qy = (y1 - y0) * i / steps;
            assert(qx == trunc_div((x1 - x0) * i, steps as int));
            assert(qy == trunc_div((y1 - y0) * i, steps as int));
            proof {
                lemma_trunc_bound((x1 - x0) as int, i as int, steps as int);
                lemma_trunc_bound((y1 - y0) as int, i as int, steps as int);
            }
            let x = x0 + qx;
            let y = y0 + qy;
            let ghost mid = *self;
            self.stamp(x, y, r, c);
            proof {
                start.lemma_paint_compose(&mid, self@, c,
                    |px: int, py: int| on_line_upto(gx0, gy0, gx1, gy1, gr, i as int, px, py),
                    |px: int, py: int| in_disk(x as int, y as int, gr, px, py));
                assert(line_point(gx0, gy0, gx1, gy1, i as int) == (x as int, y as int));
                let p1 = |px: int, py: int| on_line_upto(gx0, gy0, gx1, gy1, gr, i as int, px, py) || in_disk(x as int, y as int, gr, px, py);
                let p2 = |px: int, py: int| on_line_upto(gx0, gy0, gx1, gy1, gr, i as int + 1, px, py);
                assert forall|px: int, py: int| 0 <= px < start.w && 0 <= py < start.h implies
                    (#[trigger] p1(px, py) <==> p2(px, py)) by {
                    if in_disk(x as int, y as int, gr, px, py) {
                        assert(in_disk(line_point(gx0, gy0, gx1, gy1, i as int).0, line_point(gx0, gy0, gx1, gy1, i as int).1,
                            gr, px, py));
                    }
                    if on_line_upto(gx0, gy0, gx1, gy1, gr, i as int + 1, px, py) {
                        let j = choose|j: int| 0 <= j < i + 1 && #[trigger] in_disk(line_point(gx0, gy0, gx1, gy1, j).0,
                            line_point(gx0, gy0, gx1, gy1, j).1, gr, px, py);
                        if j < i {
                            assert(on_line_upto(gx0, gy0, gx1, gy1, gr, i as int, px, py));
                        }
                    }
                    if on_line_upto(gx0, gy0, gx1, gy1, gr, i as int, px, py) {
                        let j = choose|j: int| 0 <= j < i && #[trigger] in_disk(line_point(gx0, gy0, gx1, gy1, j).0,
                            line_point(gx0, gy0, gx1, gy1, j).1, gr, px, py);
                        assert(0 <= j < i + 1);
                    }
                }
                start.lemma_paint_same(self@, c, p1, p2);
            }
            i += 1;
        }
    }
}

} // verus!

verus! {

/// Mask cells `[0, upto)` of mask row `r` that ink pixel column `cx`
/// (directly, or one to the right when emboldening).
pub open spec fn mask_hits(mask: Seq<bool>, mw: int, r: int, cx: int, upto: int, embolden: bool) -> bool {
    ||| (0 <= cx < upto && mask[r * mw + cx])
    ||| (embolden && 0 <= cx - 1 < upto && mask[r * mw + cx - 1])
}

/// Mask row `r` lies wholly within a mask of `len` cells, `mw` per row.
pub open spec fn mask_row_fits(len: int, mw: int, r: int) -> bool {
    (r + 1) * mw <= len
}

/// The blit's positions fit `i32` as the loop computes them: every row's
/// `y + row`, and for every set cell of a row on a surface `h` rows high, its
/// column and `x + column` (one more when emboldening). An empty mask asks nothing.
pub open spec fn blit_fits(mask: Seq<bool>, mw: int, mh: int, x: int, y: int, h: int, embolden: bool) -> bool {
    mw > 0 && mh > 0 ==> {
        &&& mh - 1 <= i32::MAX
        &&& y + (mh - 1) <= i32::MAX
        &&& forall|r: int, c: int|
            0 <= r < mh && 0 <= y + r < h && 0 <= c < mw && #[trigger] mask[r * mw + c] ==> c <= i32::MAX && x + c + (
            if embolden {
                1int
            } else {
                0int
            }) <= i32::MAX
    }
}

/// Pixel `(px, py)` is inked by blitting `mask` (`mw` x `mh`, row-major) at `(x, y)`.
pub open spec fn blit_covers(mask: Seq<bool>, mw: int, mh: int, x: int, y: int, embolden: bool, px: int, py: int) -> bool {
    &&& 0 <= py - y < mh
    &&& mask_hits(mask, mw, py - y, px - x, mw, embolden)
}

impl Surface {
    /// Blit a 1-byte-per-pixel coverage mask (`true` = inked) at `(x, y)` in one
    /// colour; `embolden` double-strikes one pixel right (synthetic bold).
    /// Clipped to the surface.
    pub fn blit_mask(&mut self, mask: &[bool], mw: usize, mh: usize, x: i32, y: i32, color: u16, embolden: bool)
        requires
            old(self).wf(),
            blit_fits(mask@, mw as int, mh as int, x as int, y as int, old(self).h as int, embolden),
            forall|r: int| 0 <= r < mh && 0 <= y + r < old(self).h ==> #[trigger] mask_row_fits(mask@.len() as int, mw as int, r),
        ensures
            final(self).wf(),
            old(self).same_geometry(&*final(self)),
            old(self).painted(final(self)@, color, |px: int, py: int| blit_covers(mask@, mw as int, mh as int, x as int,
                y as int, embolden, px, py)),
    {
        let ghost start = *self;
        let ghost m = mask@;
        let ghost (gx, gy, gw, gh) = (x as int, y as int, mw as int, mh as int);
        proof {
            start.lemma_paint_nothing(color);
        }
        if mw == 0 || mh == 0 {
            proof {
                start.lemma_paint_same(self@, color, |px: int, py: int| false,
                    |px: int, py: int| blit_covers(m, gw, gh, gx, gy, embolden, px, py));
            }
            return;
        }
        let mlen = mask.len();
        let sw = self.w as i32;
        let sh = self.h as i32;
        let mut row: usize = 0;
        proof {
            start.lemma_paint_same(self@, color, |px: int, py: int| false,
                |px: int, py: int| py - gy < row && blit_covers(m, gw, gh, gx, gy, embolden, px, py));
        }
        while row < mh
            invariant
                row <= mh,
                m == mask@,
                gx == x,
                gy == y,
                gw == mw,
                gh == mh,
                sw == start.w,
                sh == start.h,
                0 < mw,
                0 < mh,
                blit_fits(mask@, mw as int, mh as int, x as int, y as int, start.h as int, embolden),
                mlen == mask@.len(),
                forall|r: int| 0 <= r < mh && 0 <= y + r < start.h ==> #[trigger] mask_row_fits(mask@.len() as int, mw as int, r),
                self.wf(),
                start.wf(),
                start.same_geometry(&*self),
                start.painted(self@, color, |px: int, py: int| py - gy < row && blit_covers(m, gw, gh, gx, gy, embolden, px, py)),
            decreases mh - row,
        {
            let py = y + row as i32;
            if py < 0 || py >= sh {
                proof {
                    start.lemma_paint_same(self@, color,
                        |px: int, py: int| py - gy < row && blit_covers(m, gw, gh, gx, gy, embolden, px, py),
                        |px: int, py: int| py - gy < row + 1 && blit_covers(m, gw, gh, gx, gy, embolden, px, py));
                }
                row += 1;
                continue;
            }
            assert(mask_row_fits(mask@.len() as int, mw as int, row as int));
            assert((row + 1) * mw == row * mw + mw) by (nonlinear_arith);
            let mrow = row * mw;
            let mut col: usize = 0;
            proof {
                start.lemma_paint_same(self@, color,
                    |px: int, py: int| py - gy < row && blit_covers(m, gw, gh, gx, gy, embolden, px, py),
                    |px: int, py: int| (py - gy < row && blit_covers(m, gw, gh, gx, gy, embolden, px, py)) || (py - gy == row
                        && mask_hits(m, gw, row as int, px - gx, col as int, embolden)));
            }
            while col < mw
                invariant
                    col <= mw,
                    row < mh,
                    mrow == row * mw,
                    mrow + mw <= mask@.len(),
                    py == y + row,
                    0 <= py < start.h,
                    m == mask@,
                    gx == x,
                    gy == y,
                    gw == mw,
                    gh == mh,
                    sw == start.w,
                    sh == start.h,
                    0 < mh,
                    blit_fits(mask@, mw as int, mh as int, x as int, y as int, start.h as int, embolden),
                    mlen == mask@.len(),
                    self.wf(),
                    start.wf(),
                    start.same_geometry(&*self),
                    start.painted(self@, color, |px: int, py: int| (py - gy < row && blit_covers(m, gw, gh, gx, gy, embolden, px, py))
                        || (py - gy == row && mask_hits(m, gw, row as int, px - gx, col as int, embolden))),
                decreases mw - col,
            {
                let ghost before = |px: int, py: int| (py - gy < row && blit_covers(m, gw, gh, gx, gy, embolden, px, py))
                    || (py - gy == row && mask_hits(m, gw, row as int, px - gx, col as int, embolden));
                let ghost after = |px: int, py: int| (py - gy < row && blit_covers(m, gw, gh, gx, gy, embolden, px, py))
                    || (py - gy == row && mask_hits(m, gw, row as int, px - gx, col as int + 1, embolden));
                if !mask[mrow + col] {
                    proof {
                        start.lemma_paint_same(self@, color, before, after);
                    }
                    col += 1;
                    continue;
                }
                assert(mask@[row * mw + col]);
                let px = x + col as i32;
                let ghost p0 = *self;
                if px >= 0 && px < sw {
                    self.set_pixel(px as usize, py as usize, color);
                    proof {
                        start.lemma_paint_compose(&p0, self@, color, before, |qx: int, qy: int| qx == px && qy == py);
                    }
                } else {
                    proof {
                        start.lemma_paint_same(self@, color, before,
                            |qx: int, qy: int| before(qx, qy) || (qx == px && qy == py));
                    }
                }
                let ghost p1 = *self;
                if embolden {
                    let e = px + 1;
                    if e >= 0 && e < sw {
                        self.set_pixel(e as usize, py as usize, color);
                        proof {
                            start.lemma_paint_compose(&p1, self@, color,
                                |qx: int, qy: int| before(qx, qy) || (qx == px && qy == py),
                                |qx: int, qy: int| qx == e && qy == py);
                        }
                    } else {
                        proof {
                            start.lemma_paint_same(self@, color,
                                |qx: int, qy: int| before(qx, qy) || (qx == px && qy == py),
                                |qx: int, qy: int| (before(qx, qy) || (qx == px && qy == py)) || (qx == px + 1 && qy == py));
                        }
                    }
                    proof {
                        start.lemma_paint_same(self@, color,
                            |qx: int, qy: int| (before(qx, qy) || (qx == px && qy == py)) || (qx == px + 1 && qy == py), after);
                    }
                } else {
                    proof {
                        start.lemma_paint_same(self@, color,
                            |qx: int, qy: int| before(qx, qy) || (qx == px && qy == py), after);
                    }
                }
                col += 1;
            }
            proof {
                start.lemma_paint_same(self@, color,
                    |px: int, py: int| (py - gy < row && blit_covers(m, gw, gh, gx, gy, embolden, px, py)) || (py - gy == row
                        && mask_hits(m, gw, row as int, px - gx, col as int, embolden)),
                    |px: int, py: int| py - gy < row + 1 && blit_covers(m, gw, gh, gx, gy, embolden, px, py));
            }
            row += 1;
        }
        proof {
            start.lemma_paint_same(self@, color,
                |px: int, py: int| py - gy < row && blit_covers(m, gw, gh, gx, gy, embolden, px, py),
                |px: int, py: int| blit_covers(m, gw, gh, gx, gy, embolden, px, py));
        }
    }
}

} // verus!

verus! {

impl Surface {
    /// The bytes `bytes` (laid out with this surface's geometry) with every
    /// image pixel `(x, y)` where `p(x, y)` holds set to colour `c`.
    pub open spec fn paint_seq(&self, bytes: Seq<u8>, c: u16, p: spec_fn(int, int) -> bool) -> Seq<u8> {
        Seq::new(bytes.len(), |k: int| if self.stride > 0 && 0 <= k < bytes.len() && byte_row(self.stride as int, k) < self.h
            && byte_col(self.stride as int, self.bpp_spec(), k) < self.w && p(
            byte_col(self.stride as int, self.bpp_spec(), k),
            byte_row(self.stride as int, k),
        ) {
            px_byte(self.fmt, c, byte_comp(self.stride as int, self.bpp_spec(), k))
        } else {
            bytes[k]
        })
    }

    /// `painted` pins the bytes down: they are `paint_seq` of the bytes before.
    pub proof fn lemma_painted_is_paint_seq(&self, after: Seq<u8>, c: u16, p: spec_fn(int, int) -> bool)
        requires
            self.painted(after, c, p),
        ensures
            after == self.paint_seq(self@, c, p),
    {
        assert(after =~= self.paint_seq(self@, c, p));
    }
}

} // verus!
