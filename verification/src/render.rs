//! The pixels that the host shows.
use crate::fixed::{
    fx_add, fx_div, fx_mul, fx_round_div, fx_sub, fx_times, round_div, spec_add, spec_div,
    spec_mul, spec_sub, spec_times, tdiv, HALF, UNIT,
};
use crate::host_api::Bitmap;
use crate::math::V2;
use vstd::prelude::*;

verus! {

/// A buffer of `width` by `height` pixels, row after row, each pixel four
/// bytes: blue, green, red, alpha.
#[derive(Debug)]
pub struct OffscreenBuffer {
    pub buffer: Vec<u8>,
    pub width: usize,
    pub height: usize,
    pub bytes_per_pixel: usize,
}

/// A colour: red, green and blue, each from zero to one.
#[derive(Copy, Clone, Debug, PartialEq, Eq, Structural)]
pub struct Color {
    pub red: i64,
    pub green: i64,
    pub blue: i64,
}

/// A pixel: blue, green, red, alpha.
pub struct Pixel {
    pub blue: u8,
    pub green: u8,
    pub red: u8,
    pub alpha: u8,
}

/// `x` brought into the range from `lo` to `hi`.
pub open spec fn clip(x: int, lo: int, hi: int) -> int {
    if x < lo {
        lo
    } else if x > hi {
        hi
    } else {
        x
    }
}

/// The whole number nearest to the scalar `a`, within the `i32` range.
pub open spec fn nearest(a: i64) -> int {
    clip(round_div(a as int, UNIT as int), i32::MIN as int, i32::MAX as int)
}

/// The byte that stands for a part `c` of one: `c` times 255, rounded, and
/// no less than zero nor more than 255.
pub open spec fn channel(c: i64) -> u8 {
    clip(round_div(spec_times(255, c as int), UNIT as int), 0, 255) as u8
}

/// The pixel (`x`, `y`) of a buffer `width` pixels wide.
pub open spec fn pixel_at(buffer: Seq<u8>, width: int, x: int, y: int) -> Pixel {
    let at = 4 * (y * width + x);
    Pixel { blue: buffer[at], green: buffer[at + 1], red: buffer[at + 2], alpha: buffer[at + 3] }
}

/// The pixel (`x`, `y`) ends within a buffer of `w` by `h` pixels.
pub proof fn lemma_pixel_in_buffer(x: int, y: int, w: int, h: int)
    requires
        0 <= x < w,
        0 <= y < h,
    ensures
        0 <= y * w,
        0 <= y * w + x < w * h,
        0 <= w * h,
        (y * w + x) * 4 + 3 < w * h * 4,
        4 * (y * w + x) + 3 < w * h * 4,
        y * (w * 4) + 4 * x == 4 * (y * w + x),
{
    assert(0 <= y * w && y * w + w <= h * w && h * w == w * h) by (nonlinear_arith)
        requires
            0 <= y < h,
            0 < w,
    ;
    assert(y * (w * 4) == 4 * (y * w)) by (nonlinear_arith);
    assert(w * h * 4 == 4 * (w * h)) by (nonlinear_arith);
}

/// Two different pixels have different places in the buffer.
pub proof fn lemma_pixels_differ(x1: int, y1: int, x2: int, y2: int, w: int)
    requires
        0 <= x1 < w,
        0 <= x2 < w,
        0 <= y1,
        0 <= y2,
        x1 != x2 || y1 != y2,
    ensures
        y1 * w + x1 != y2 * w + x2,
{
    if y1 < y2 {
        assert(y1 * w + w <= y2 * w) by (nonlinear_arith)
            requires
                y1 + 1 <= y2,
                w > 0,
        ;
    } else if y2 < y1 {
        assert(y2 * w + w <= y1 * w) by (nonlinear_arith)
            requires
                y2 + 1 <= y1,
                w > 0,
        ;
    }
}

/// The whole number nearest to a scalar, within the `i32` range.
pub fn round_to_i32(a: i64) -> (r: i32)
    ensures
        r == nearest(a),
{
    let q = fx_round_div(a, UNIT);
    if q < i32::MIN as i64 {
        i32::MIN
    } else if q > i32::MAX as i64 {
        i32::MAX
    } else {
        q as i32
    }
}

/// The byte that stands for a part of one.
pub fn channel_byte(c: i64) -> (r: u8)
    ensures
        r == channel(c),
{
    let q = fx_round_div(fx_times(255, c), UNIT);
    if q < 0 {
        0
    } else if q > 255 {
        255
    } else {
        q as u8
    }
}

impl Color {
    /// Full red and blue, no green.
    pub fn magenta() -> (r: Self)
        ensures
            r == (Color { red: UNIT, green: 0, blue: UNIT }),
    {
        Color { red: UNIT, green: 0, blue: UNIT }
    }

    /// Full red.
    pub fn red() -> (r: Self)
        ensures
            r == (Color { red: UNIT, green: 0, blue: 0 }),
    {
        Color { red: UNIT, green: 0, blue: 0 }
    }

    /// The pixel of this colour.
    pub open spec fn pixel(self) -> Pixel {
        Pixel {
            blue: channel(self.blue),
            green: channel(self.green),
            red: channel(self.red),
            alpha: 0,
        }
    }
}

impl OffscreenBuffer {
    /// Whether the buffer has four bytes for each of its pixels.
    pub open spec fn wf(&self) -> bool {
        &&& self.bytes_per_pixel == 4
        &&& self.buffer@.len() == self.width * self.height * 4
    }

    /// The pixel (`x`, `y`).
    pub open spec fn pixel(&self, x: int, y: int) -> Pixel {
        pixel_at(self.buffer@, self.width as int, x, y)
    }

    /// The bytes in one row of pixels.
    pub fn pitch(&self) -> (r: usize)
        requires
            self.width * self.bytes_per_pixel <= usize::MAX,
        ensures
            r == self.width * self.bytes_per_pixel,
    {
        self.width * self.bytes_per_pixel
    }

    /// Writes `p` to the pixel (`x`, `y`).
    pub fn put(&mut self, x: usize, y: usize, p: Pixel)
        requires
            old(self).wf(),
            x < old(self).width,
            y < old(self).height,
        ensures
            final(self).wf(),
            final(self).width == old(self).width,
            final(self).height == old(self).height,
            final(self).pixel(x as int, y as int) == p,
            forall|i: int, j: int|
                0 <= i < old(self).width && 0 <= j < old(self).height && (i != x || j != y)
                    ==> #[trigger] final(self).pixel(i, j) == old(self).pixel(i, j),
    {
        let len = self.buffer.len();
        proof {
            lemma_pixel_in_buffer(x as int, y as int, self.width as int, self.height as int);
            assert(len == self.width * self.height * 4);
        }
        let offset = (y * self.width + x) * 4;
        self.buffer[offset] = p.blue;
        self.buffer[offset + 1] = p.green;
        self.buffer[offset + 2] = p.red;
        self.buffer[offset + 3] = p.alpha;
        proof {
            assert forall|i: int, j: int|
                0 <= i < old(self).width && 0 <= j < old(self).height && (i != x || j
                    != y) implies #[trigger] self.pixel(i, j) == old(self).pixel(i, j) by {
                lemma_pixels_differ(i, j, x as int, y as int, self.width as int);
                lemma_pixel_in_buffer(i, j, self.width as int, self.height as int);
            }
        }
    }

    /// The pixel (`x`, `y`).
    pub fn get(&self, x: usize, y: usize) -> (p: Pixel)
        requires
            self.wf(),
            x < self.width,
            y < self.height,
        ensures
            p == self.pixel(x as int, y as int),
    {
        let len = self.buffer.len();
        proof {
            lemma_pixel_in_buffer(x as int, y as int, self.width as int, self.height as int);
            assert(len == self.width * self.height * 4);
        }
        let offset = (y * self.width + x) * 4;
        Pixel {
            blue: self.buffer[offset],
            green: self.buffer[offset + 1],
            red: self.buffer[offset + 2],
            alpha: self.buffer[offset + 3],
        }
    }

    /// Makes every pixel magenta.
    pub fn reset(&mut self)
        requires
            old(self).wf(),
        ensures
            final(self).wf(),
            final(self).width == old(self).width,
            final(self).height == old(self).height,
            forall|x: int, y: int|
                0 <= x < final(self).width && 0 <= y < final(self).height
                    ==> #[trigger] final(self).pixel(x, y) == (Pixel {
                    blue: 255,
                    green: 0,
                    red: 255,
                    alpha: 0,
                }),
    {
        let mut y: usize = 0;
        while y < self.height
            invariant
                self.wf(),
                self.width == old(self).width,
                self.height == old(self).height,
                y <= self.height,
                forall|i: int, j: int|
                    0 <= i < self.width && 0 <= j < y ==> #[trigger] self.pixel(i, j) == (Pixel {
                        blue: 255,
                        green: 0,
                        red: 255,
                        alpha: 0,
                    }),
            decreases self.height - y,
        {
            let mut x: usize = 0;
            while x < self.width
                invariant
                    self.wf(),
                    self.width == old(self).width,
                    self.height == old(self).height,
                    y < self.height,
                    x <= self.width,
                    forall|i: int, j: int|
                        0 <= i < self.width && 0 <= j < self.height && (j < y || (j == y && i < x))
                            ==> #[trigger] self.pixel(i, j) == (Pixel {
                            blue: 255,
                            green: 0,
                            red: 255,
                            alpha: 0,
                        }),
                decreases self.width - x,
            {
                self.put(x, y, Pixel { blue: 255, green: 0, red: 255, alpha: 0 });
                x += 1;
            }
            y += 1;
        }
    }

    /// A rectangle of pixels: from (`x0`, `y0`) up to, not with, (`x1`, `y1`).
    pub open spec fn within(x: int, y: int, x0: int, y0: int, x1: int, y1: int) -> bool {
        x0 <= x < x1 && y0 <= y < y1
    }

    /// Fills the pixels from `min` up to, not with, `max` with `color`. The
    /// corners are rounded to whole pixels, and what lies outside the buffer
    /// is left out.
    pub fn render_rectangle(&mut self, min: V2, max: V2, color: Color)
        requires
            old(self).wf(),
        ensures
            final(self).wf(),
            final(self).width == old(self).width,
            final(self).height == old(self).height,
            forall|x: int, y: int|
                0 <= x < old(self).width && 0 <= y < old(self).height
                    ==> #[trigger] final(self).pixel(x, y) == (if Self::within(
                    x,
                    y,
                    clip(nearest(min.x), 0, i32::MAX as int),
                    clip(nearest(min.y), 0, i32::MAX as int),
                    clip(nearest(max.x), 0, old(self).width as int),
                    clip(nearest(max.y), 0, old(self).height as int),
                ) {
                    color.pixel()
                } else {
                    old(self).pixel(x, y)
                }),
    {
        let miny = low_edge(round_to_i32(min.y()));
        let minx = low_edge(round_to_i32(min.x()));
        let maxx = high_edge(round_to_i32(max.x()), self.width);
        let maxy = high_edge(round_to_i32(max.y()), self.height);
        let blue = channel_byte(color.blue);
        let green = channel_byte(color.green);
        let red = channel_byte(color.red);
        let mut y: usize = miny;
        while y < maxy
            invariant
                self.wf(),
                self.width == old(self).width,
                self.height == old(self).height,
                maxx <= self.width,
                maxy <= self.height,
                miny <= y,
                y <= maxy || y == miny,
                forall|i: int, j: int|
                    0 <= i < self.width && 0 <= j < self.height ==> #[trigger] self.pixel(i, j)
                        == (if Self::within(i, j, minx as int, miny as int, maxx as int, y as int) {
                        Pixel { blue, green, red, alpha: 0 }
                    } else {
                        old(self).pixel(i, j)
                    }),
            decreases maxy - y,
        {
            let mut x: usize = minx;
            while x < maxx
                invariant
                    self.wf(),
                    self.width == old(self).width,
                    self.height == old(self).height,
                    maxx <= self.width,
                    maxy <= self.height,
                    miny <= y < maxy,
                    minx <= x,
                    x <= maxx || x == minx,
                    forall|i: int, j: int|
                        0 <= i < self.width && 0 <= j < self.height ==> #[trigger] self.pixel(i, j)
                            == (if Self::within(
                            i,
                            j,
                            minx as int,
                            miny as int,
                            maxx as int,
                            y as int,
                        ) || (j == y && minx <= i < x) {
                            Pixel { blue, green, red, alpha: 0 }
                        } else {
                            old(self).pixel(i, j)
                        }),
                decreases maxx - x,
            {
                self.put(x, y, Pixel { blue, green, red, alpha: 0 });
                x += 1;
            }
            y += 1;
        }
    }

    /// The pixel (`x`, `y`) of the buffer once `bitmap` was drawn with its
    /// lower left corner at (`rx`, `ry`): where the bitmap covers the pixel,
    /// each colour of the pixel is mixed with that of the bitmap; the rows of
    /// the bitmap run upward.
    pub open spec fn drawn(
        &self,
        bitmap: &Bitmap,
        rx: int,
        ry: int,
        c_alpha: i64,
        x: int,
        y: int,
    ) -> Pixel {
        if rx <= x < rx + bitmap.width && ry <= y < ry + bitmap.height {
            let s = pixel_at(bitmap.pixels@, bitmap.width as int, x - rx, bitmap.height - 1 - (y - ry));
            let d = self.pixel(x, y);
            let a = source_alpha(c_alpha, s.alpha);
            Pixel {
                blue: blend(d.blue, s.blue, a),
                green: blend(d.green, s.green, a),
                red: blend(d.red, s.red, a),
                alpha: d.alpha,
            }
        } else {
            self.pixel(x, y)
        }
    }

    /// Draws `bitmap` so that its point (`align_x`, `align_y`) comes to lie
    /// on `xy`: the colours of the bitmap are mixed into the pixels that it
    /// covers, by its alpha times `c_alpha`. The place is rounded to whole
    /// pixels, and what lies outside the buffer is left out.
    pub fn render_bitmap(
        &mut self,
        bitmap: &Bitmap,
        xy: V2,
        align_x: i32,
        align_y: i32,
        c_alpha: i64,
    )
        requires
            old(self).wf(),
            bitmap.wf(),
        ensures
            final(self).wf(),
            final(self).width == old(self).width,
            final(self).height == old(self).height,
            forall|x: int, y: int|
                0 <= x < old(self).width && 0 <= y < old(self).height
                    ==> #[trigger] final(self).pixel(x, y) == old(self).drawn(
                    bitmap,
                    nearest(spec_sub(xy.x as int, spec_times(align_x as int, UNIT as int)) as i64),
                    nearest(spec_sub(xy.y as int, spec_times(align_y as int, UNIT as int)) as i64),
                    c_alpha,
                    x,
                    y,
                ),
    {
        let rx = round_to_i32(fx_sub(xy.x(), fx_times(align_x as i64, UNIT)));
        let ry = round_to_i32(fx_sub(xy.y(), fx_times(align_y as i64, UNIT)));
        let min_x = low_edge(rx);
        let min_y = low_edge(ry);
        let max_x = far_edge(rx, bitmap.width, self.width);
        let max_y = far_edge(ry, bitmap.height, self.height);
        let mut y: usize = min_y;
        while y < max_y
            invariant
                self.wf(),
                bitmap.wf(),
                self.width == old(self).width,
                self.height == old(self).height,
                min_x == clip(rx as int, 0, i32::MAX as int),
                min_y == clip(ry as int, 0, i32::MAX as int),
                max_x == clip(rx + bitmap.width, 0, self.width as int),
                max_y == clip(ry + bitmap.height, 0, self.height as int),
                min_y <= y,
                forall|i: int, j: int|
                    0 <= i < self.width && 0 <= j < self.height ==> #[trigger] self.pixel(i, j)
                        == (if j < y {
                        old(self).drawn(bitmap, rx as int, ry as int, c_alpha, i, j)
                    } else {
                        old(self).pixel(i, j)
                    }),
            decreases max_y - y,
        {
            let mut x: usize = min_x;
            while x < max_x
                invariant
                    self.wf(),
                    bitmap.wf(),
                    self.width == old(self).width,
                    self.height == old(self).height,
                    min_x == clip(rx as int, 0, i32::MAX as int),
                    min_y == clip(ry as int, 0, i32::MAX as int),
                    max_x == clip(rx + bitmap.width, 0, self.width as int),
                    max_y == clip(ry + bitmap.height, 0, self.height as int),
                    min_y <= y < max_y,
                    min_x <= x,
                    forall|i: int, j: int|
                        0 <= i < self.width && 0 <= j < self.height ==> #[trigger] self.pixel(i, j)
                            == (if j < y || (j == y && i < x) {
                            old(self).drawn(bitmap, rx as int, ry as int, c_alpha, i, j)
                        } else {
                            old(self).pixel(i, j)
                        }),
                decreases max_x - x,
            {
                let bx: usize = (x as i128 - rx as i128) as usize;
                let by: usize = (bitmap.height as i128 - 1 - (y as i128 - ry as i128)) as usize;
                let len = bitmap.pixels.len();
                proof {
                    lemma_pixel_in_buffer(
                        bx as int,
                        by as int,
                        bitmap.width as int,
                        bitmap.height as int,
                    );
                    assert(len == bitmap.width * bitmap.height * 4);
                }
                let at = (by * bitmap.width + bx) * 4;
                let sb = bitmap.pixels[at];
                let sg = bitmap.pixels[at + 1];
                let sr = bitmap.pixels[at + 2];
                let a = alpha_of(c_alpha, bitmap.pixels[at + 3]);
                let d = self.get(x, y);
                assert(d == old(self).pixel(x as int, y as int));
                self.put(
                    x,
                    y,
                    Pixel {
                        blue: blend_channel(d.blue, sb, a),
                        green: blend_channel(d.green, sg, a),
                        red: blend_channel(d.red, sr, a),
                        alpha: d.alpha,
                    },
                );
                x += 1;
            }
            y += 1;
        }
    }
}

/// How much of the bitmap shows at a pixel: `c_alpha` times the part of 255
/// that the alpha byte `a` of the pixel is.
pub open spec fn source_alpha(c_alpha: i64, a: u8) -> int {
    spec_mul(c_alpha as int, spec_div(spec_times(a as int, UNIT as int), spec_times(255, UNIT as int)))
}

/// The byte `dst` mixed with the byte `src`: `alpha` parts of `src` and the
/// rest of `dst`, a half added, cut to a whole number from 0 to 255.
pub open spec fn blend(dst: u8, src: u8, alpha: int) -> u8 {
    let rest = spec_mul(spec_sub(UNIT as int, alpha), spec_times(dst as int, UNIT as int));
    let part = spec_mul(alpha, spec_times(src as int, UNIT as int));
    clip(tdiv(spec_add(spec_add(rest, part), HALF as int), UNIT as int), 0, 255) as u8
}

/// How much of the bitmap shows at a pixel.
pub fn alpha_of(c_alpha: i64, a: u8) -> (r: i64)
    ensures
        r == source_alpha(c_alpha, a),
{
    fx_mul(c_alpha, fx_div(fx_times(a as i64, UNIT), fx_times(255, UNIT)))
}

/// One byte mixed with another.
pub fn blend_channel(dst: u8, src: u8, alpha: i64) -> (r: u8)
    ensures
        r == blend(dst, src, alpha as int),
{
    let rest = fx_mul(fx_sub(UNIT, alpha), fx_times(dst as i64, UNIT));
    let part = fx_mul(alpha, fx_times(src as i64, UNIT));
    let q = fx_add(fx_add(rest, part), HALF) / UNIT;
    if q < 0 {
        0
    } else if q > 255 {
        255
    } else {
        q as u8
    }
}

/// A lower edge in whole pixels: not below zero.
pub fn low_edge(a: i32) -> (r: usize)
    ensures
        r == clip(a as int, 0, i32::MAX as int),
{
    if a < 0 {
        0
    } else {
        a as usize
    }
}

/// An upper edge in whole pixels: not below zero and not beyond `limit`.
pub fn high_edge(a: i32, limit: usize) -> (r: usize)
    ensures
        r == clip(a as int, 0, limit as int),
{
    if a < 0 {
        0
    } else if a as u64 > limit as u64 {
        limit
    } else {
        a as usize
    }
}

/// The upper edge of what starts at `a` and is `size` wide: not below zero
/// and not beyond `limit`.
pub fn far_edge(a: i32, size: usize, limit: usize) -> (r: usize)
    ensures
        r == clip(a + size, 0, limit as int),
{
    let end: i128 = a as i128 + size as i128;
    if end < 0 {
        0
    } else if end > limit as i128 {
        limit
    } else {
        end as usize
    }
}

} // verus!
