//! Integer colour arithmetic on packed, premultiplied 32-bit RGBA pixels.
use vstd::prelude::*;

verus! {

/// The `k`-th byte of a packed pixel (byte 3 is alpha).
pub open spec fn channel(c: u32, k: u32) -> u32 {
    (c >> (8 * k)) & 0xff
}

/// A pixel is premultiplied when no colour byte exceeds its alpha byte.
pub open spec fn premultiplied(c: u32) -> bool {
    &&& channel(c, 0) <= channel(c, 3)
    &&& channel(c, 1) <= channel(c, 3)
    &&& channel(c, 2) <= channel(c, 3)
}

/// Multiplying two bytes packed 16 bits apart multiplies each of them.
proof fn lemma_mul_pair(a: u32, b: u32, s: u32)
    requires
        a < 256,
        b < 256,
        s <= 256,
    ensures
        a * s < 0x10000,
        b * s < 0x10000,
        (a | (b << 16u32)) * s == ((a * s) as u32) | (((b * s) as u32) << 16u32),
{
    assert(a * s <= 255 * 256 && b * s <= 255 * 256) by (nonlinear_arith)
        requires
            a < 256,
            b < 256,
            s <= 256,
    ;
    assert(a | (b << 16u32) == a + b * 0x10000) by (bit_vector)
        requires
            a < 256u32,
            b < 256u32,
    ;
    assert((a + b * 0x10000) * s == a * s + (b * s) * 0x10000) by (nonlinear_arith);
    let p = (a * s) as u32;
    let q = (b * s) as u32;
    assert(p + q * 0x10000 == p | (q << 16u32)) by (bit_vector)
        requires
            p < 0x10000u32,
            q < 0x10000u32,
    ;
}

/// Multiplies every byte of `color` by `scale / 256`, rounding down.
pub fn alpha_mul(color: u32, scale: u32) -> (r: u32)
    requires
        scale <= 256,
    ensures
        channel(r, 0) == channel(color, 0) * scale / 256,
        channel(r, 1) == channel(color, 1) * scale / 256,
        channel(r, 2) == channel(color, 2) * scale / 256,
        channel(r, 3) == channel(color, 3) * scale / 256,
{
    let mask: u32 = 0xff00ff;
    let ghost c0 = channel(color, 0);
    let ghost c1 = channel(color, 1);
    let ghost c2 = channel(color, 2);
    let ghost c3 = channel(color, 3);
    assert(c0 < 256 && c1 < 256 && c2 < 256 && c3 < 256 && color & mask == c0 | (c2 << 16u32)
        && (color >> 8u32) & mask == c1 | (c3 << 16u32)) by (bit_vector)
        requires
            mask == 0xff00ffu32,
            c0 == (color >> 0u32) & 0xff,
            c1 == (color >> 8u32) & 0xff,
            c2 == (color >> 16u32) & 0xff,
            c3 == (color >> 24u32) & 0xff,
    ;
    proof {
        lemma_mul_pair(c0, c2, scale);
        lemma_mul_pair(c1, c3, scale);
    }
    let rb = ((color & mask) * scale) >> 8;
    let ag = ((color >> 8) & mask) * scale;
    let r = (rb & mask) | (ag & !mask);
    let ghost prod0 = (c0 * scale) as u32;
    let ghost prod1 = (c1 * scale) as u32;
    let ghost prod2 = (c2 * scale) as u32;
    let ghost prod3 = (c3 * scale) as u32;
    assert((r >> 0u32) & 0xff == prod0 / 256 && (r >> 8u32) & 0xff == prod1 / 256 && (r >> 16u32) & 0xff
        == prod2 / 256 && (r >> 24u32) & 0xff == prod3 / 256) by (bit_vector)
        requires
            prod0 < 0x10000u32,
            prod1 < 0x10000u32,
            prod2 < 0x10000u32,
            prod3 < 0x10000u32,
            r == (((prod0 | (prod2 << 16u32)) >> 8u32) & 0xff00ffu32) | ((prod1 | (prod3 << 16u32))
                & !0xff00ffu32),
    ;
    r
}

/// Composites the premultiplied `src` over `dst`: every byte becomes
/// `src + dst * (256 - alpha(src)) / 256`.
pub fn blend_src_over(src: u32, dst: u32) -> (r: u32)
    requires
        premultiplied(src),
    ensures
        channel(r, 0) == channel(src, 0) + channel(dst, 0) * (256 - channel(src, 3)) / 256,
        channel(r, 1) == channel(src, 1) + channel(dst, 1) * (256 - channel(src, 3)) / 256,
        channel(r, 2) == channel(src, 2) + channel(dst, 2) * (256 - channel(src, 3)) / 256,
        channel(r, 3) == channel(src, 3) + channel(dst, 3) * (256 - channel(src, 3)) / 256,
{
    assert(src >> 24u32 <= 255u32) by (bit_vector);
    assert(src >> 24u32 == (src >> 24u32) & 0xff) by (bit_vector);
    let scale = 256 - (src >> 24);
    let m = alpha_mul(dst, scale);
    assert(
        src as int + m as int <= 0xffff_ffff
        && (((src + m) as u32) >> 0u32) & 0xff == ((src >> 0u32) & 0xff) + ((m >> 0u32) & 0xff)
        && (((src + m) as u32) >> 8u32) & 0xff == ((src >> 8u32) & 0xff) + ((m >> 8u32) & 0xff)
        && (((src + m) as u32) >> 16u32) & 0xff == ((src >> 16u32) & 0xff) + ((m >> 16u32) & 0xff)
        && (((src + m) as u32) >> 24u32) & 0xff == ((src >> 24u32) & 0xff) + ((m >> 24u32) & 0xff)
    ) by (bit_vector)
        requires
            (src >> 0u32) & 0xff <= (src >> 24u32) & 0xff,
            (src >> 8u32) & 0xff <= (src >> 24u32) & 0xff,
            (src >> 16u32) & 0xff <= (src >> 24u32) & 0xff,
            scale == 256u32 - (src >> 24u32),
            (m >> 0u32) & 0xff == ((dst >> 0u32) & 0xff) * scale / 256,
            (m >> 8u32) & 0xff == ((dst >> 8u32) & 0xff) * scale / 256,
            (m >> 16u32) & 0xff == ((dst >> 16u32) & 0xff) * scale / 256,
            (m >> 24u32) & 0xff == ((dst >> 24u32) & 0xff) * scale / 256,
    ;
    src + m
}

/// A rasterized glyph: a box of `width` by `height` pixels whose top-left
/// pixel is at (`left`, `top`) on the canvas, and its coverage bytes, row by
/// row.
#[derive(Debug, PartialEq)]
pub struct GlyphBitmap {
    pub left: i32,
    pub top: i32,
    pub width: u32,
    pub height: u32,
    pub coverage: Vec<u8>,
}

impl GlyphBitmap {
    pub open spec fn wf(&self) -> bool {
        self.coverage@.len() == self.width * self.height
    }

    pub open spec fn covers(&self, x: int, y: int) -> bool {
        self.left <= x < self.left + self.width && self.top <= y < self.top + self.height
    }

    pub open spec fn coverage_at(&self, x: int, y: int) -> u8 {
        self.coverage@[(y - self.top) * self.width + (x - self.left)]
    }
}

/// The pixel at column `x` and row `y` of a canvas `w` pixels wide.
pub open spec fn pixel(s: Seq<u32>, w: int, x: int, y: int) -> u32 {
    s[y * w + x]
}

/// `r` is `dst` with `color` drawn over it at coverage `cov`: untouched at
/// no coverage, replaced at full coverage, else `color` scaled by `cov / 256`
/// and composited over `dst`.
pub open spec fn blended(r: u32, dst: u32, cov: u8, color: u32) -> bool {
    if cov == 0 {
        r == dst
    } else if cov == 255 {
        r == color
    } else {
        let a = channel(color, 3) * cov / 256;
        &&& channel(r, 0) == channel(color, 0) * cov / 256 + channel(dst, 0) * (256 - a) / 256
        &&& channel(r, 1) == channel(color, 1) * cov / 256 + channel(dst, 1) * (256 - a) / 256
        &&& channel(r, 2) == channel(color, 2) * cov / 256 + channel(dst, 2) * (256 - a) / 256
        &&& channel(r, 3) == a + channel(dst, 3) * (256 - a) / 256
    }
}

/// What compositing leaves at a pixel: blended where the glyph covers it,
/// untouched elsewhere.
pub open spec fn composited(r: u32, dst: u32, b: &GlyphBitmap, color: u32, x: int, y: int) -> bool {
    if b.covers(x, y) {
        blended(r, dst, b.coverage_at(x, y), color)
    } else {
        r == dst
    }
}

proof fn lemma_scale_monotone(a: u32, b: u32, c: u32)
    requires
        a <= b,
    ensures
        a * c / 256 <= b * c / 256,
{
    assert(a * c <= b * c) by (nonlinear_arith)
        requires
            a <= b,
    ;
    vstd::arithmetic::div_mod::lemma_div_is_ordered((a * c) as int, (b * c) as int, 256);
}

proof fn lemma_index(x: int, y: int, x2: int, y2: int, w: int, h: int)
    requires
        0 <= x < w,
        0 <= x2 < w,
        0 <= y < h,
        0 <= y2 < h,
    ensures
        0 <= y * w + x < w * h,
        y * w + x == y2 * w + x2 ==> x == x2 && y == y2,
{
    assert(0 <= y * w + x < w * h) by (nonlinear_arith)
        requires
            0 <= x < w,
            0 <= y < h,
    ;
    if y < y2 {
        assert(y * w + x < y2 * w + x2) by (nonlinear_arith)
            requires
                0 <= x < w,
                0 <= x2,
                y < y2,
        ;
    } else if y2 < y {
        assert(y2 * w + x2 < y * w + x) by (nonlinear_arith)
            requires
                0 <= x2 < w,
                0 <= x,
                y2 < y,
        ;
    }
}

fn clamp(v: i64, hi: u32) -> (r: usize)
    requires
        hi <= usize::MAX,
    ensures
        r == if v < 0 { 0 } else if v > hi { hi as int } else { v as int },
{
    if v < 0 {
        0
    } else if v > hi as i64 {
        hi as usize
    } else {
        v as usize
    }
}

/// Draws a glyph's coverage in `color` onto a canvas of `cw` by `ch`
/// pixels, stored row by row; the parts of the glyph off the canvas are
/// clipped.
pub fn composite_glyph(pixels: &mut Vec<u32>, cw: u32, ch: u32, b: &GlyphBitmap, color: u32)
    requires
        old(pixels)@.len() == cw * ch,
        b.wf(),
        premultiplied(color),
    ensures
        final(pixels)@.len() == old(pixels)@.len(),
        forall|x: int, y: int|
            0 <= x < cw && 0 <= y < ch ==> composited(
                #[trigger] pixel(final(pixels)@, cw as int, x, y),
                pixel(old(pixels)@, cw as int, x, y),
                b,
                color,
                x,
                y,
            ),
{
    let ghost orig = pixels@;
    let ghost w = cw as int;
    let x0 = clamp(b.left as i64, cw);
    let x1 = clamp(b.left as i64 + b.width as i64, cw);
    let y0 = clamp(b.top as i64, ch);
    let y1 = clamp(b.top as i64 + b.height as i64, ch);
    let mut y = y0;
    while y < y1
        invariant
            pixels@.len() == orig.len() == cw * ch,
            y0 <= y <= ch,
            y1 <= ch,
            x0 <= cw,
            x1 <= cw,
            b.wf(),
            premultiplied(color),
            w == cw,
            x0 == if b.left < 0 { 0 } else if b.left > cw { cw as int } else { b.left as int },
            x1 == if b.left + b.width < 0 { 0 } else if b.left + b.width > cw { cw as int } else { b.left + b.width },
            y0 == if b.top < 0 { 0 } else if b.top > ch { ch as int } else { b.top as int },
            y1 == if b.top + b.height < 0 { 0 } else if b.top + b.height > ch { ch as int } else { b.top + b.height },
            forall|xx: int, yy: int|
                0 <= xx < cw && 0 <= yy < ch ==> if yy < y {
                    composited(#[trigger] pixel(pixels@, w, xx, yy), pixel(orig, w, xx, yy), b, color, xx, yy)
                } else {
                    pixel(pixels@, w, xx, yy) == pixel(orig, w, xx, yy)
                },
        decreases y1 - y,
    {
        let mut x = x0;
        while x < x1
            invariant
                pixels@.len() == orig.len() == cw * ch,
                y0 <= y < y1 <= ch,
                x0 <= x <= cw,
                x1 <= cw,
                b.wf(),
                premultiplied(color),
                w == cw,
                x0 == if b.left < 0 { 0 } else if b.left > cw { cw as int } else { b.left as int },
                x1 == if b.left + b.width < 0 { 0 } else if b.left + b.width > cw { cw as int } else { b.left + b.width },
                y0 == if b.top < 0 { 0 } else if b.top > ch { ch as int } else { b.top as int },
                y1 == if b.top + b.height < 0 { 0 } else if b.top + b.height > ch { ch as int } else { b.top + b.height },
                forall|xx: int, yy: int|
                    0 <= xx < cw && 0 <= yy < ch ==> if yy < y || (yy == y && xx < x) {
                        composited(#[trigger] pixel(pixels@, w, xx, yy), pixel(orig, w, xx, yy), b, color, xx, yy)
                    } else {
                        pixel(pixels@, w, xx, yy) == pixel(orig, w, xx, yy)
                    },
            decreases x1 - x,
        {
            proof {
                lemma_index(x as int, y as int, 0, 0, w, ch as int);
                assert((y - b.top) * b.width + (x - b.left) < b.width * b.height) by (nonlinear_arith)
                    requires
                        0 <= x - b.left < b.width,
                        0 <= y - b.top < b.height,
                ;
                assert(0 <= (y - b.top) * b.width + (x - b.left)) by (nonlinear_arith)
                    requires
                        0 <= x - b.left,
                        0 <= y - b.top,
                ;
            }
            let dy = (y as i64 - b.top as i64) as usize;
            let dx = (x as i64 - b.left as i64) as usize;
            let clen = b.coverage.len();
            assert(dy == y - b.top && dx == x - b.left);
            assert(dy * b.width + dx < clen);
            let ai = dy * (b.width as usize) + dx;
            let plen = pixels.len();
            assert(y * cw + x < plen);
            let pi = y * (cw as usize) + x;
            let cov = b.coverage[ai];
            let ghost before = pixels@;
            assert(pixel(before, w, x as int, y as int) == pixel(orig, w, x as int, y as int));
            assert(b.covers(x as int, y as int));
            assert(b.coverage_at(x as int, y as int) == cov);
            if cov == 255 {
                pixels.set(pi, color);
            } else if cov != 0 {
                proof {
                    lemma_scale_monotone(channel(color, 0), channel(color, 3), cov as u32);
                    lemma_scale_monotone(channel(color, 1), channel(color, 3), cov as u32);
                    lemma_scale_monotone(channel(color, 2), channel(color, 3), cov as u32);
                }
                let applied = alpha_mul(color, cov as u32);
                let dst = pixels[pi];
                pixels.set(pi, blend_src_over(applied, dst));
            }
            assert(pixels@ =~= before.update(pi as int, pixels@[pi as int]));
            assert forall|xx: int, yy: int| 0 <= xx < cw && 0 <= yy < ch implies if yy < y || (yy == y && xx < x + 1) {
                composited(#[trigger] pixel(pixels@, w, xx, yy), pixel(orig, w, xx, yy), b, color, xx, yy)
            } else {
                pixel(pixels@, w, xx, yy) == pixel(orig, w, xx, yy)
            } by {
                lemma_index(x as int, y as int, xx, yy, w, ch as int);
                lemma_index(xx, yy, x as int, y as int, w, ch as int);
                if xx != x || yy != y {
                    assert(pixel(pixels@, w, xx, yy) == pixel(before, w, xx, yy));
                }
            }
            x = x + 1;
        }
        assert forall|xx: int, yy: int| 0 <= xx < cw && 0 <= yy < ch implies if yy < y + 1 {
            composited(#[trigger] pixel(pixels@, w, xx, yy), pixel(orig, w, xx, yy), b, color, xx, yy)
        } else {
            pixel(pixels@, w, xx, yy) == pixel(orig, w, xx, yy)
        } by {
        }
        y = y + 1;
    }
    assert forall|xx: int, yy: int| 0 <= xx < cw && 0 <= yy < ch implies composited(
        #[trigger] pixel(pixels@, w, xx, yy),
        pixel(orig, w, xx, yy),
        b,
        color,
        xx,
        yy,
    ) by {
    }
}

} // verus!
