//! Pixel-drawing primitives over an owned pixel store.
//!
//! The hardware frame buffer is raw memory; the drawing logic here
//! works against the [`Bitmap`] trait instead, and [`FrameBuffer`]
//! implements it over an owned row-major pixel array. Whatever code
//! talks to the hardware copies a [`FrameBuffer`]'s rows out to the
//! screen.

use vstd::prelude::*;
use crate::Error;

verus! {

/// Largest width, height or scan-line length a drawable surface may
/// report: keeps every coordinate computation far from overflow.
pub const MAX_DIM: i64 = 0x8000;

/// A drawable pixel surface: a width and height, a scan-line length
/// (which may exceed the visible width), and one `u32` pixel value
/// per coordinate.
pub trait Bitmap: Sized {
    /// Width in pixels.
    spec fn sp_width(&self) -> int;

    /// Height in pixels.
    spec fn sp_height(&self) -> int;

    /// Pixels per scan line.
    spec fn sp_pixels_per_line(&self) -> int;

    /// The pixel value at `(x, y)`.
    spec fn sp_pixel(&self, x: int, y: int) -> u32;

    /// Soundness of the surface: dimensions are nonnegative, bounded
    /// by [`MAX_DIM`], and the width fits the scan line.
    spec fn sp_wf(&self) -> bool;

    fn width(&self) -> (r: i64)
        requires
            self.sp_wf(),
        ensures
            r == self.sp_width(),
    ;

    fn height(&self) -> (r: i64)
        requires
            self.sp_wf(),
        ensures
            r == self.sp_height(),
    ;

    fn pixels_per_line(&self) -> (r: i64)
        requires
            self.sp_wf(),
        ensures
            r == self.sp_pixels_per_line(),
    ;

    /// Implementations promise the dimension bounds whenever the
    /// surface is sound.
    proof fn wf_bounds(&self)
        requires
            self.sp_wf(),
        ensures
            0 <= self.sp_width() <= MAX_DIM,
            0 <= self.sp_height() <= MAX_DIM,
            self.sp_width() <= self.sp_pixels_per_line() <= MAX_DIM,
    ;

    /// Writes one pixel inside the visible area.
    fn set_pixel(&mut self, x: i64, y: i64, color: u32)
        requires
            old(self).sp_wf(),
            0 <= x < old(self).sp_width(),
            0 <= y < old(self).sp_height(),
        ensures
            final(self).sp_wf(),
            final(self).sp_width() == old(self).sp_width(),
            final(self).sp_height() == old(self).sp_height(),
            final(self).sp_pixels_per_line() == old(self).sp_pixels_per_line(),
            final(self).sp_pixel(x as int, y as int) == color,
            forall|a: int, b: int|
                !(a == x && b == y) ==> #[trigger] final(self).sp_pixel(a, b) == old(
                    self,
                ).sp_pixel(a, b),
    ;
}

/// An owned frame buffer: `pixels_per_line * height` pixels stored
/// row-major, standing for the video memory the firmware reports.
pub struct FrameBuffer {
    width: i64,
    height: i64,
    pixels_per_line: i64,
    pixels: Vec<u32>,
}

impl FrameBuffer {
    /// A black (all-zero) surface of the given dimensions.
    pub fn new(width: i64, height: i64, pixels_per_line: i64) -> (r: FrameBuffer)
        requires
            0 <= width <= pixels_per_line,
            0 <= height <= MAX_DIM,
            pixels_per_line <= MAX_DIM,
        ensures
            r.sp_wf(),
            r.sp_width() == width,
            r.sp_height() == height,
            r.sp_pixels_per_line() == pixels_per_line,
            forall|a: int, b: int| #[trigger] r.sp_pixel(a, b) == 0,
    {
        proof {
            assert(0 <= pixels_per_line as int * height as int <= 0x40000000)
                by (nonlinear_arith)
                requires
                    0 <= height <= MAX_DIM,
                    0 <= pixels_per_line <= MAX_DIM,
            ;
        }
        let n = (pixels_per_line as usize) * (height as usize);
        let pixels = vec![0u32; n];
        let fb = FrameBuffer { width, height, pixels_per_line, pixels };
        proof {
            assert forall|a: int, b: int| #[trigger] fb.sp_pixel(a, b) == 0 by {
                if 0 <= a < fb.pixels_per_line as int && 0 <= b < fb.height as int {
                    lemma_pixel_index_bounds(fb.pixels_per_line as int, fb.height as int, a, b);
                }
            }
        }
        fb
    }

    /// Reads one pixel of the scan-line area.
    pub fn get_pixel(&self, x: i64, y: i64) -> (r: u32)
        requires
            self.sp_wf(),
            0 <= x < self.sp_pixels_per_line(),
            0 <= y < self.sp_height(),
        ensures
            r == self.sp_pixel(x as int, y as int),
    {
        proof {
            lemma_pixel_index_bounds(
                self.pixels_per_line as int,
                self.height as int,
                x as int,
                y as int,
            );
        }
        let idx = (y * self.pixels_per_line + x) as usize;
        self.pixels[idx]
    }
}

/// Row-major indices stay inside the pixel store and are injective
/// over in-range coordinates.
proof fn lemma_pixel_index_bounds(ppl: int, height: int, x: int, y: int)
    requires
        0 < ppl <= MAX_DIM,
        height <= MAX_DIM,
        0 <= x < ppl,
        0 <= y < height,
    ensures
        0 <= y * ppl + x < ppl * height,
        ppl * height <= 0x40000000,
{
    assert(0 <= y * ppl + x < ppl * height && ppl * height <= 0x40000000) by (nonlinear_arith)
        requires
            0 < ppl <= MAX_DIM,
            height <= MAX_DIM,
            0 <= x < ppl,
            0 <= y < height,
    ;
}

proof fn lemma_pixel_index_injective(ppl: int, a: int, b: int, x: int, y: int)
    requires
        0 < ppl,
        0 <= a < ppl,
        0 <= x < ppl,
        b * ppl + a == y * ppl + x,
    ensures
        a == x && b == y,
{
    assert(a == x && b == y) by (nonlinear_arith)
        requires
            0 < ppl,
            0 <= a < ppl,
            0 <= x < ppl,
            b * ppl + a == y * ppl + x,
    ;
}

impl Bitmap for FrameBuffer {
    closed spec fn sp_width(&self) -> int {
        self.width as int
    }

    closed spec fn sp_height(&self) -> int {
        self.height as int
    }

    closed spec fn sp_pixels_per_line(&self) -> int {
        self.pixels_per_line as int
    }

    closed spec fn sp_pixel(&self, x: int, y: int) -> u32 {
        if 0 <= x < self.pixels_per_line as int && 0 <= y < self.height as int {
            self.pixels@[y * (self.pixels_per_line as int) + x]
        } else {
            0
        }
    }

    closed spec fn sp_wf(&self) -> bool {
        &&& 0 <= self.width <= self.pixels_per_line
        &&& 0 <= self.height <= MAX_DIM
        &&& self.pixels_per_line <= MAX_DIM
        &&& self.pixels@.len() == self.pixels_per_line as int * self.height as int
    }

    fn width(&self) -> (r: i64) {
        self.width
    }

    fn height(&self) -> (r: i64) {
        self.height
    }

    fn pixels_per_line(&self) -> (r: i64) {
        self.pixels_per_line
    }

    proof fn wf_bounds(&self) {
    }

    fn set_pixel(&mut self, x: i64, y: i64, color: u32) {
        proof {
            lemma_pixel_index_bounds(
                self.pixels_per_line as int,
                self.height as int,
                x as int,
                y as int,
            );
        }
        let idx = (y * self.pixels_per_line + x) as usize;
        self.pixels[idx] = color;
        proof {
            assert forall|a: int, b: int|
                !(a == x && b == y) implies #[trigger] self.sp_pixel(a, b) == old(self).sp_pixel(
                a,
                b,
            ) by {
                let ppl = self.pixels_per_line as int;
                if 0 <= a < ppl && 0 <= b < self.height as int {
                    if b * ppl + a == y as int * ppl + x as int {
                        lemma_pixel_index_injective(ppl, a, b, x as int, y as int);
                    } else {
                        lemma_pixel_index_bounds(ppl, self.height as int, a, b);
                    }
                }
            }
        }
    }
}

/// Whether column `px` is visible: nonnegative and within both the
/// width and the scan line.
pub open spec fn sp_in_x_range<T: Bitmap>(buf: &T, px: int) -> bool {
    0 <= px && px < buf.sp_width() && px < buf.sp_pixels_per_line()
}

/// Whether row `py` is visible.
pub open spec fn sp_in_y_range<T: Bitmap>(buf: &T, py: int) -> bool {
    0 <= py && py < buf.sp_height()
}

/// The two surfaces have the same dimensions.
pub open spec fn sp_same_dims<T: Bitmap>(a: &T, b: &T) -> bool {
    &&& a.sp_width() == b.sp_width()
    &&& a.sp_height() == b.sp_height()
    &&& a.sp_pixels_per_line() == b.sp_pixels_per_line()
}

pub fn is_in_x_range<T: Bitmap>(buf: &T, px: i64) -> (r: bool)
    requires
        buf.sp_wf(),
    ensures
        r == sp_in_x_range(buf, px as int),
{
    let w = buf.width();
    let ppl = buf.pixels_per_line();
    let lim = if w < ppl {
        w
    } else {
        ppl
    };
    0 <= px && px < lim
}

pub fn is_in_y_range<T: Bitmap>(buf: &T, py: i64) -> (r: bool)
    requires
        buf.sp_wf(),
    ensures
        r == sp_in_y_range(buf, py as int),
{
    0 <= py && py < buf.height()
}

/// Sets the pixel at `(x, y)` to `color`; rejects coordinates outside
/// the visible area and leaves the surface untouched then.
pub fn draw_point<T: Bitmap>(buf: &mut T, color: u32, x: i64, y: i64) -> (r: Result<(), Error>)
    requires
        old(buf).sp_wf(),
    ensures
        final(buf).sp_wf(),
        sp_same_dims(final(buf), old(buf)),
        r is Ok <==> sp_in_x_range(old(buf), x as int) && sp_in_y_range(old(buf), y as int),
        r is Err ==> r == Result::<(), Error>::Err(Error::OutOfBounds),
        r is Ok ==> final(buf).sp_pixel(x as int, y as int) == color,
        forall|a: int, b: int|
            !(a == x && b == y) ==> #[trigger] final(buf).sp_pixel(a, b) == old(buf).sp_pixel(
                a,
                b,
            ),
        r is Err ==> forall|a: int, b: int| #[trigger]
            final(buf).sp_pixel(a, b) == old(buf).sp_pixel(a, b),
{
    if is_in_x_range(buf, x) && is_in_y_range(buf, y) {
        buf.set_pixel(x, y, color);
        Ok(())
    } else {
        Err(Error::OutOfBounds)
    }
}

/// Fills the rectangle with corner `(px, py)`, width `width` and
/// height `height` with `color`. Both corners must be visible;
/// otherwise nothing is drawn and `Err` comes back.
pub fn fill_rect<T: Bitmap>(
    buf: &mut T,
    px: i64,
    py: i64,
    width: i64,
    height: i64,
    color: u32,
) -> (r: Result<(), Error>)
    requires
        old(buf).sp_wf(),
        i64::MIN < px + width <= i64::MAX,
        i64::MIN < py + height <= i64::MAX,
    ensures
        final(buf).sp_wf(),
        sp_same_dims(final(buf), old(buf)),
        r is Ok <==> {
            &&& sp_in_x_range(old(buf), px as int)
            &&& sp_in_y_range(old(buf), py as int)
            &&& sp_in_x_range(old(buf), px + width - 1)
            &&& sp_in_y_range(old(buf), py + height - 1)
        },
        r is Err ==> r == Result::<(), Error>::Err(Error::OutOfBounds),
        r is Ok ==> forall|a: int, b: int|
            px <= a < px + width && py <= b < py + height ==> #[trigger] final(buf).sp_pixel(a, b)
                == color,
        forall|a: int, b: int|
            !(px <= a < px + width && py <= b < py + height) ==> #[trigger] final(buf).sp_pixel(
                a,
                b,
            ) == old(buf).sp_pixel(a, b),
        r is Err ==> forall|a: int, b: int| #[trigger]
            final(buf).sp_pixel(a, b) == old(buf).sp_pixel(a, b),
{
    if !is_in_x_range(buf, px) || !is_in_y_range(buf, py) || !is_in_x_range(buf, px + width - 1)
        || !is_in_y_range(buf, py + height - 1) {
        return Err(Error::OutOfBounds);
    }
    let ghost s0 = *buf;
    let mut y = py;
    while y < py + height
        invariant
            buf.sp_wf(),
            sp_same_dims(buf, &s0),
            s0.sp_wf(),
            sp_in_x_range(&s0, px as int),
            sp_in_y_range(&s0, py as int),
            sp_in_x_range(&s0, px + width - 1),
            sp_in_y_range(&s0, py + height - 1),
            i64::MIN < px + width <= i64::MAX,
            i64::MIN < py + height <= i64::MAX,
            py <= y,
            y <= py + height || y == py,
            forall|a: int, b: int|
                px <= a < px + width && py <= b < y ==> #[trigger] buf.sp_pixel(a, b) == color,
            forall|a: int, b: int|
                !(px <= a < px + width && py <= b < y) ==> #[trigger] buf.sp_pixel(a, b)
                    == s0.sp_pixel(a, b),
        decreases py + height - y,
    {
        let mut xx = px;
        while xx < px + width
            invariant
                buf.sp_wf(),
                sp_same_dims(buf, &s0),
                s0.sp_wf(),
                sp_in_x_range(&s0, px as int),
                sp_in_y_range(&s0, py as int),
                sp_in_x_range(&s0, px + width - 1),
                sp_in_y_range(&s0, py + height - 1),
                i64::MIN < px + width <= i64::MAX,
                i64::MIN < py + height <= i64::MAX,
                px <= xx,
                xx <= px + width || xx == px,
                py <= y < py + height,
                forall|a: int, b: int|
                    px <= a < px + width && py <= b < y ==> #[trigger] buf.sp_pixel(a, b)
                        == color,
                forall|a: int| px <= a < xx ==> #[trigger] buf.sp_pixel(a, y as int) == color,
                forall|a: int, b: int|
                    !(px <= a < px + width && py <= b < y) && !(px <= a < xx && b == y) ==> (
                    #[trigger] buf.sp_pixel(a, b)) == s0.sp_pixel(a, b),
            decreases px + width - xx,
        {
            buf.set_pixel(xx, y, color);
            xx = xx + 1;
        }
        y = y + 1;
    }
    Ok(())
}

/// Absolute value.
pub open spec fn sp_abs(v: int) -> int {
    if v < 0 {
        -v
    } else {
        v
    }
}

/// Sign: `1`, `-1` or `0`.
pub open spec fn sp_sgn(v: int) -> int {
    if v > 0 {
        1
    } else if v < 0 {
        -1
    } else {
        0
    }
}

/// The smaller of two values.
pub open spec fn sp_min(a: int, b: int) -> int {
    if a < b {
        a
    } else {
        b
    }
}

/// The larger of two values.
pub open spec fn sp_max(a: int, b: int) -> int {
    if a < b {
        b
    } else {
        a
    }
}

/// Whether `(a, b)` lies in the bounding box of the two endpoints.
pub open spec fn sp_in_box(a: int, b: int, x0: int, y0: int, x1: int, y1: int) -> bool {
    &&& sp_min(x0, x1) <= a <= sp_max(x0, x1)
    &&& sp_min(y0, y1) <= b <= sp_max(y0, y1)
}

/// The minor-axis offset of a line after `ia` steps along its major
/// axis, for a line with major extent `da` and minor extent `db`.
pub open spec fn sp_slope_point(da: int, db: int, ia: int) -> int {
    (2 * db * ia + da) / da / 2
}

/// Computes [`sp_slope_point`] for a step `ia` in `0..=da`; steps
/// outside that range, or a minor extent larger than the major one,
/// give `None`.
pub fn calc_slope_point(da: i64, db: i64, ia: i64) -> (r: Option<i64>)
    requires
        0 <= db <= MAX_DIM,
        da <= MAX_DIM,
    ensures
        r == (if da < db {
            Option::<i64>::None
        } else if da == 0 {
            Option::<i64>::Some(0i64)
        } else if 0 <= ia <= da {
            Option::<i64>::Some(sp_slope_point(da as int, db as int, ia as int) as i64)
        } else {
            Option::<i64>::None
        }),
        (da >= db && da > 0 && 0 <= ia <= da) ==> 0 <= sp_slope_point(
            da as int,
            db as int,
            ia as int,
        ) <= db,
{
    if da < db {
        None
    } else if da == 0 {
        Some(0)
    } else if 0 <= ia && ia <= da {
        proof {
            assert(0 <= 2 * (db as int) * (ia as int) <= 0x80000000) by (nonlinear_arith)
                requires
                    0 <= db <= MAX_DIM,
                    0 <= ia <= MAX_DIM,
            ;
        }
        let num = 2 * (db as u64) * (ia as u64) + (da as u64);
        let q = num / (da as u64) / 2;
        proof {
            let dai = da as int;
            let dbi = db as int;
            let iai = ia as int;
            let numi = 2 * dbi * iai + dai;
            assert(numi <= (2 * dbi + 1) * dai) by (nonlinear_arith)
                requires
                    numi == 2 * dbi * iai + dai,
                    0 <= iai <= dai,
                    0 <= dbi,
                    0 < dai,
            ;
            vstd::arithmetic::div_mod::lemma_div_is_ordered(numi, (2 * dbi + 1) * dai, dai);
            vstd::arithmetic::div_mod::lemma_div_multiples_vanish(2 * dbi + 1, dai);
            assert((2 * dbi + 1) * dai == dai * (2 * dbi + 1)) by (nonlinear_arith);
            assert(numi / dai <= 2 * dbi + 1);
            vstd::arithmetic::div_mod::lemma_div_is_ordered(numi / dai, 2 * dbi + 1, 2);
            assert((2 * dbi + 1) / 2 == dbi);
            vstd::arithmetic::div_mod::lemma_div_pos_is_pos(numi, dai);
            vstd::arithmetic::div_mod::lemma_div_pos_is_pos(numi / dai, 2);
        }
        Some(q as i64)
    } else {
        None
    }
}

/// Draws the open line segment from `(x0, y0)` towards `(x1, y1)`:
/// one pixel per step along the major axis, the minor coordinate
/// following [`sp_slope_point`]; the endpoint `(x1, y1)` itself is
/// not drawn. Both endpoints must be visible; otherwise nothing is
/// drawn and `Err` comes back.
pub fn draw_line<T: Bitmap>(buf: &mut T, color: u32, x0: i64, y0: i64, x1: i64, y1: i64) -> (r:
    Result<(), Error>)
    requires
        old(buf).sp_wf(),
    ensures
        final(buf).sp_wf(),
        sp_same_dims(final(buf), old(buf)),
        r is Ok <==> {
            &&& sp_in_x_range(old(buf), x0 as int)
            &&& sp_in_x_range(old(buf), x1 as int)
            &&& sp_in_y_range(old(buf), y0 as int)
            &&& sp_in_y_range(old(buf), y1 as int)
        },
        r is Err ==> r == Result::<(), Error>::Err(Error::OutOfBounds),
        r is Err ==> forall|a: int, b: int| #[trigger]
            final(buf).sp_pixel(a, b) == old(buf).sp_pixel(a, b),
        r is Ok ==> ({
            let dx = sp_abs(x1 as int - x0 as int);
            let dy = sp_abs(y1 as int - y0 as int);
            let sx = sp_sgn(x1 as int - x0 as int);
            let sy = sp_sgn(y1 as int - y0 as int);
            if dx >= dy {
                forall|j: int|
                    0 <= j < dx ==> #[trigger] final(buf).sp_pixel(
                        x0 + j * sx,
                        y0 + sp_slope_point(dx, dy, j) * sy,
                    ) == color
            } else {
                forall|j: int|
                    0 <= j < dy ==> #[trigger] final(buf).sp_pixel(
                        x0 + sp_slope_point(dy, dx, j) * sx,
                        y0 + j * sy,
                    ) == color
            }
        }),
        forall|a: int, b: int|
            !sp_in_box(a, b, x0 as int, y0 as int, x1 as int, y1 as int) ==> #[trigger] final(buf).sp_pixel(a, b) == old(buf).sp_pixel(a, b),
        forall|a: int, b: int|
            #[trigger] final(buf).sp_pixel(a, b) == old(buf).sp_pixel(a, b) || final(buf).sp_pixel(a, b) == color,
{
    if !is_in_x_range(buf, x0) || !is_in_x_range(buf, x1) || !is_in_y_range(buf, y0)
        || !is_in_y_range(buf, y1) {
        return Err(Error::OutOfBounds);
    }
    proof {
        buf.wf_bounds();
    }
    let ghost s0 = *buf;
    let dx = if x1 >= x0 {
        x1 - x0
    } else {
        x0 - x1
    };
    let sx: i64 = if x1 > x0 {
        1
    } else if x1 < x0 {
        -1
    } else {
        0
    };
    let dy = if y1 >= y0 {
        y1 - y0
    } else {
        y0 - y1
    };
    let sy: i64 = if y1 > y0 {
        1
    } else if y1 < y0 {
        -1
    } else {
        0
    };
    if dx >= dy {
        let mut i: i64 = 0;
        while i < dx
            invariant
                buf.sp_wf(),
                sp_same_dims(buf, &s0),
                s0.sp_wf(),
                0 <= s0.sp_width() <= MAX_DIM,
                0 <= s0.sp_height() <= MAX_DIM,
                s0.sp_width() <= s0.sp_pixels_per_line() <= MAX_DIM,
                sp_in_x_range(&s0, x0 as int),
                sp_in_x_range(&s0, x1 as int),
                sp_in_y_range(&s0, y0 as int),
                sp_in_y_range(&s0, y1 as int),
                dx == sp_abs(x1 as int - x0 as int),
                dy == sp_abs(y1 as int - y0 as int),
                sx == sp_sgn(x1 as int - x0 as int),
                sy == sp_sgn(y1 as int - y0 as int),
                dx >= dy,
                0 <= i <= dx,
                forall|j: int|
                    0 <= j < i ==> #[trigger] buf.sp_pixel(
                        x0 + j * (sx as int),
                        y0 + sp_slope_point(dx as int, dy as int, j) * (sy as int),
                    ) == color,
                forall|a: int, b: int|
                    !sp_in_box(a, b, x0 as int, y0 as int, x1 as int, y1 as int) ==> #[trigger] buf.sp_pixel(
                        a,
                        b,
                    ) == s0.sp_pixel(a, b),
                forall|a: int, b: int|
                    #[trigger] buf.sp_pixel(a, b) == s0.sp_pixel(a, b) || buf.sp_pixel(a, b)
                        == color,
            decreases dx - i,
        {
            match calc_slope_point(dx, dy, i) {
                Some(ry) => {
                    proof {
                        assert(sx == 1 || sx == -1);
                        assert(0 <= ry <= dy);
                        if sx == 1 {
                            assert(i * (sx as int) == i as int) by (nonlinear_arith)
                                requires
                                    sx as int == 1,
                            ;
                        } else {
                            assert(i * (sx as int) == -(i as int)) by (nonlinear_arith)
                                requires
                                    sx as int == -1,
                            ;
                        }
                        if sy == 0 {
                            assert(ry == 0);
                            assert(ry * (sy as int) == 0) by (nonlinear_arith)
                                requires
                                    ry as int == 0,
                            ;
                        } else if sy == 1 {
                            assert(ry * (sy as int) == ry as int) by (nonlinear_arith)
                                requires
                                    sy as int == 1,
                            ;
                        } else {
                            assert(ry * (sy as int) == -(ry as int)) by (nonlinear_arith)
                                requires
                                    sy as int == -1,
                            ;
                        }
                    }
                    let px = x0 + i * sx;
                    let py = y0 + ry * sy;
                    proof {
                        // The point lies between the endpoints, hence
                        // inside the visible area and inside the box.
                        if sx == 1 {
                            assert(px as int == x0 as int + i as int);
                        } else {
                            assert(px as int == x0 as int - i as int);
                        }
                        assert(sp_min(x0 as int, x1 as int) <= px as int <= sp_max(
                            x0 as int,
                            x1 as int,
                        ));
                        if sy == 1 {
                            assert(py as int == y0 as int + ry as int);
                        } else if sy == -1 {
                            assert(py as int == y0 as int - ry as int);
                        } else {
                            assert(py as int == y0 as int);
                        }
                        assert(sp_min(y0 as int, y1 as int) <= py as int <= sp_max(
                            y0 as int,
                            y1 as int,
                        ));
                    }
                    let res = draw_point(buf, color, px, py);
                    proof {
                        assert(res is Ok);
                        // Earlier steps touched other columns, so the
                        // drawn prefix is intact.
                        assert forall|j: int| 0 <= j < i + 1 implies #[trigger] buf.sp_pixel(
                            x0 + j * (sx as int),
                            y0 + sp_slope_point(dx as int, dy as int, j) * (sy as int),
                        ) == color by {
                            if j < i {
                                assert(x0 + j * (sx as int) != px as int) by (nonlinear_arith)
                                    requires
                                        sx as int == 1 || sx as int == -1,
                                        0 <= j < i,
                                        px as int == x0 + i * (sx as int),
                                ;
                            }
                        }
                    }
                },
                None => {
                    proof {
                        assert(false);
                    }
                },
            }
            i = i + 1;
        }
        Ok(())
    } else {
        let mut i: i64 = 0;
        while i < dy
            invariant
                buf.sp_wf(),
                sp_same_dims(buf, &s0),
                s0.sp_wf(),
                0 <= s0.sp_width() <= MAX_DIM,
                0 <= s0.sp_height() <= MAX_DIM,
                s0.sp_width() <= s0.sp_pixels_per_line() <= MAX_DIM,
                sp_in_x_range(&s0, x0 as int),
                sp_in_x_range(&s0, x1 as int),
                sp_in_y_range(&s0, y0 as int),
                sp_in_y_range(&s0, y1 as int),
                dx == sp_abs(x1 as int - x0 as int),
                dy == sp_abs(y1 as int - y0 as int),
                sx == sp_sgn(x1 as int - x0 as int),
                sy == sp_sgn(y1 as int - y0 as int),
                dx < dy,
                0 <= i <= dy,
                forall|j: int|
                    0 <= j < i ==> #[trigger] buf.sp_pixel(
                        x0 + sp_slope_point(dy as int, dx as int, j) * (sx as int),
                        y0 + j * (sy as int),
                    ) == color,
                forall|a: int, b: int|
                    !sp_in_box(a, b, x0 as int, y0 as int, x1 as int, y1 as int) ==> #[trigger] buf.sp_pixel(
                        a,
                        b,
                    ) == s0.sp_pixel(a, b),
                forall|a: int, b: int|
                    #[trigger] buf.sp_pixel(a, b) == s0.sp_pixel(a, b) || buf.sp_pixel(a, b)
                        == color,
            decreases dy - i,
        {
            match calc_slope_point(dy, dx, i) {
                Some(rx) => {
                    proof {
                        assert(sy == 1 || sy == -1);
                        assert(0 <= rx <= dx);
                        if sy == 1 {
                            assert(i * (sy as int) == i as int) by (nonlinear_arith)
                                requires
                                    sy as int == 1,
                            ;
                        } else {
                            assert(i * (sy as int) == -(i as int)) by (nonlinear_arith)
                                requires
                                    sy as int == -1,
                            ;
                        }
                        if sx == 0 {
                            assert(rx == 0);
                            assert(rx * (sx as int) == 0) by (nonlinear_arith)
                                requires
                                    rx as int == 0,
                            ;
                        } else if sx == 1 {
                            assert(rx * (sx as int) == rx as int) by (nonlinear_arith)
                                requires
                                    sx as int == 1,
                            ;
                        } else {
                            assert(rx * (sx as int) == -(rx as int)) by (nonlinear_arith)
                                requires
                                    sx as int == -1,
                            ;
                        }
                    }
                    let px = x0 + rx * sx;
                    let py = y0 + i * sy;
                    proof {
                        if sy == 1 {
                            assert(py as int == y0 as int + i as int);
                        } else {
                            assert(py as int == y0 as int - i as int);
                        }
                        assert(sp_min(y0 as int, y1 as int) <= py as int <= sp_max(
                            y0 as int,
                            y1 as int,
                        ));
                        if sx == 1 {
                            assert(px as int == x0 as int + rx as int);
                        } else if sx == -1 {
                            assert(px as int == x0 as int - rx as int);
                        } else {
                            assert(px as int == x0 as int);
                        }
                        assert(sp_min(x0 as int, x1 as int) <= px as int <= sp_max(
                            x0 as int,
                            x1 as int,
                        ));
                    }
                    let res = draw_point(buf, color, px, py);
                    proof {
                        assert(res is Ok);
                        assert forall|j: int| 0 <= j < i + 1 implies #[trigger] buf.sp_pixel(
                            x0 + sp_slope_point(dy as int, dx as int, j) * (sx as int),
                            y0 + j * (sy as int),
                        ) == color by {
                            if j < i {
                                assert(y0 + j * (sy as int) != py as int) by (nonlinear_arith)
                                    requires
                                        sy as int == 1 || sy as int == -1,
                                        0 <= j < i,
                                        py as int == y0 + i * (sy as int),
                                ;
                            }
                        }
                    }
                },
                None => {
                    proof {
                        assert(false);
                    }
                },
            }
            i = i + 1;
        }
        Ok(())
    }
}

/// One 8 x 16 glyph: byte `dots[dy * 8 + dx]` is the source
/// character of the cell, `*` meaning a lit pixel.
pub struct Glyph {
    pub dots: Vec<u8>,
}

impl Glyph {
    /// A glyph holds exactly 16 rows of 8 cells.
    pub open spec fn wf(&self) -> bool {
        self.dots@.len() == 128
    }
}

/// The value of one ASCII hex digit.
pub open spec fn sp_hex_digit(b: u8) -> Option<int> {
    if 48 <= b <= 57 {
        Some((b - 48) as int)
    } else if 97 <= b <= 102 {
        Some(b - 97 + 10)
    } else if 65 <= b <= 70 {
        Some(b - 65 + 10)
    } else {
        None
    }
}

/// The value of a string of hex digits; `None` if it is empty or
/// holds a non-digit.
pub open spec fn sp_hex_value(ds: Seq<u8>) -> Option<int>
    decreases ds.len(),
{
    if ds.len() == 0 {
        None
    } else {
        let last = sp_hex_digit(ds.last());
        if last is None {
            None
        } else if ds.len() == 1 {
            last
        } else {
            match sp_hex_value(ds.drop_last()) {
                Option::None => None,
                Option::Some(v) => Some(16 * v + last->Some_0),
            }
        }
    }
}

/// Position of the first line break at or after `from`, or the end
/// of the source.
pub open spec fn sp_line_end(s: Seq<u8>, from: int) -> int
    decreases s.len() - from,
{
    if from < 0 {
        0
    } else if from >= s.len() || s[from] == 10 {
        from
    } else {
        sp_line_end(s, from + 1)
    }
}

/// Start of the line after the one starting at `from` (clamped to
/// the end of the source).
pub open spec fn sp_next_line(s: Seq<u8>, from: int) -> int {
    if sp_line_end(s, from) >= s.len() {
        s.len() as int
    } else {
        sp_line_end(s, from) + 1
    }
}

/// Whether the line `[from, end)` is the glyph header for code `c`:
/// `0x` followed by hex digits whose value is `c`.
pub open spec fn sp_is_header(s: Seq<u8>, from: int, c: u8) -> bool {
    let e = sp_line_end(s, from);
    &&& e - from > 2
    &&& s[from] == 48
    &&& s[from + 1] == 120
    &&& sp_hex_value(s.subrange(from + 2, e)) == Some(c as int)
}

/// Start of the first glyph row for code `c`, searching line by line
/// from `from`: the line after the first matching header.
pub open spec fn sp_find_glyph(s: Seq<u8>, from: int, c: u8) -> Option<int>
    decreases s.len() - from,
{
    if from < 0 || from > s.len() {
        None
    } else if sp_is_header(s, from, c) {
        Some(sp_next_line(s, from))
    } else if sp_line_end(s, from) >= s.len() {
        None
    } else {
        let e = sp_line_end(s, from);
        if e < from {
            None
        } else {
            sp_find_glyph(s, e + 1, c)
        }
    }
}

/// Start of row `k` of a glyph whose rows begin at `from`.
pub open spec fn sp_row_start(s: Seq<u8>, from: int, k: int) -> int
    decreases k,
{
    if k <= 0 {
        from
    } else {
        sp_next_line(s, sp_row_start(s, from, k - 1))
    }
}

/// Cell `x` of the row starting at `from`: the row's byte if the
/// line is long enough, else the `*` padding.
pub open spec fn sp_row_cell(s: Seq<u8>, from: int, x: int) -> u8 {
    if from + x < sp_line_end(s, from) {
        s[from + x]
    } else {
        42
    }
}

/// Whether the font holds a glyph for `c`.
pub open spec fn sp_has_glyph(s: Seq<u8>, c: char) -> bool {
    c as int <= 255 && sp_find_glyph(s, 0, c as u8) is Some
}

/// Cell `(dx, dy)` of the glyph for `c` in the font.
pub open spec fn sp_glyph_dot(s: Seq<u8>, c: char, dx: int, dy: int) -> u8 {
    let from = sp_find_glyph(s, 0, c as u8)->Some_0;
    sp_row_cell(s, sp_row_start(s, from, dy), dx)
}

/// Finds the end of the line starting at `from`.
fn line_end(s: &[u8], from: usize) -> (r: usize)
    requires
        from <= s@.len(),
    ensures
        r == sp_line_end(s@, from as int),
        from <= r <= s@.len(),
{
    let n = s.len();
    let mut p = from;
    while p < n
        invariant
            from <= p <= n,
            n == s@.len(),
            sp_line_end(s@, from as int) == sp_line_end(s@, p as int),
            forall|q: int| from <= q < p ==> s@[q] != 10,
        decreases n - p,
    {
        if s[p] == 10 {
            return p;
        }
        p = p + 1;
    }
    p
}

/// Looks a character's glyph up in a font source: a text of lines
/// where a line `0x` + hex code starts a glyph, given by the
/// following 16 lines, 8 cells each, short lines padded with `*`.
pub fn lookup_font(font_source: &[u8], c: char) -> (r: Option<Glyph>)
    ensures
        r is Some <==> sp_has_glyph(font_source@, c),
        r matches Some(g) ==> {
            &&& g.wf()
            &&& forall|dx: int, dy: int|
                0 <= dx < 8 && 0 <= dy < 16 ==> g.dots@[dy * 8 + dx] == sp_glyph_dot(
                    font_source@,
                    c,
                    dx,
                    dy,
                )
        },
{
    let code: u8 = {
        let u = c as u32;
        if u > 255 {
            return None;
        }
        u as u8
    };
    let n = font_source.len();
    let mut pos: usize = 0;
    loop
        invariant
            0 <= pos <= n,
            n == font_source@.len(),
            c as int <= 255,
            code == c as u8,
            sp_find_glyph(font_source@, 0, code) == sp_find_glyph(font_source@, pos as int, code),
        decreases n - pos,
    {
        let e = line_end(font_source, pos);
        // Does this line head the wanted glyph?
        let is_header = if e - pos > 2 && font_source[pos] == 48 && font_source[pos + 1] == 120 {
            let mut acc: u32 = 0;
            let mut ok = true;
            let mut q = pos + 2;
            while q < e
                invariant
                    pos + 2 <= q <= e,
                    e <= n,
                    n == font_source@.len(),
                    e == sp_line_end(font_source@, pos as int),
                    pos + 2 < e,
                    acc <= 256,
                    ({
                        let sofar = sp_hex_value(font_source@.subrange(pos + 2, q as int));
                        if q == pos + 2 {
                            ok && acc == 0
                        } else if ok {
                            sofar matches Some(v) && (v == acc || (v > 255 && acc == 256))
                        } else {
                            sofar is None
                        }
                    }),
                decreases e - q,
            {
                let b = font_source[q];
                let d: u32 = if 48 <= b && b <= 57 {
                    (b - 48) as u32
                } else if 97 <= b && b <= 102 {
                    (b - 97 + 10) as u32
                } else if 65 <= b && b <= 70 {
                    (b - 65 + 10) as u32
                } else {
                    ok = false;
                    0
                };
                if ok {
                    acc = 16 * acc + d;
                    if acc > 255 {
                        acc = 256;
                    }
                }
                proof {
                    assert(font_source@.subrange(pos + 2, q + 1 as int).drop_last()
                        =~= font_source@.subrange(pos + 2, q as int));
                }
                q = q + 1;
            }
            ok && acc == code as u32
        } else {
            false
        };
        if is_header {
            proof {
                assert(sp_is_header(font_source@, pos as int, code));
            }
            // Collect the 16 rows that follow.
            let mut rs = if e >= n {
                n
            } else {
                e + 1
            };
            let ghost row0 = rs as int;
            let mut dots: Vec<u8> = Vec::new();
            let mut dy: usize = 0;
            while dy < 16
                invariant
                    0 <= dy <= 16,
                    rs <= n,
                    n == font_source@.len(),
                    dots@.len() == dy * 8,
                    rs == sp_row_start(font_source@, row0, dy as int),
                    forall|ddx: int, ddy: int|
                        0 <= ddx < 8 && 0 <= ddy < dy ==> dots@[ddy * 8 + ddx] == sp_row_cell(
                            font_source@,
                            sp_row_start(font_source@, row0, ddy),
                            ddx,
                        ),
                decreases 16 - dy,
            {
                let re = line_end(font_source, rs);
                let mut dx: usize = 0;
                while dx < 8
                    invariant
                        0 <= dx <= 8,
                        rs <= re <= n,
                        n == font_source@.len(),
                        re == sp_line_end(font_source@, rs as int),
                        dots@.len() == dy * 8 + dx,
                        dy < 16,
                        rs == sp_row_start(font_source@, row0, dy as int),
                        forall|ddx: int, ddy: int|
                            0 <= ddx < 8 && 0 <= ddy < dy ==> dots@[ddy * 8 + ddx] == sp_row_cell(
                                font_source@,
                                sp_row_start(font_source@, row0, ddy),
                                ddx,
                            ),
                        forall|ddx: int|
                            0 <= ddx < dx ==> dots@[dy * 8 + ddx] == sp_row_cell(
                                font_source@,
                                rs as int,
                                ddx,
                            ),
                    decreases 8 - dx,
                {
                    let cell = if dx < re - rs {
                        font_source[rs + dx]
                    } else {
                        42u8
                    };
                    dots.push(cell);
                    dx = dx + 1;
                }
                rs = if re >= n {
                    n
                } else {
                    re + 1
                };
                dy = dy + 1;
            }
            return Some(Glyph { dots });
        }
        proof {
            assert(!sp_is_header(font_source@, pos as int, code));
        }
        if e >= n {
            return None;
        }
        pos = e + 1;
    }
}

/// Draws the glyph of `c` with its top-left cell at `(x, y)`: every
/// `*` cell of the glyph that falls inside the visible area becomes
/// `color`; other pixels keep their value. A character without a
/// glyph draws nothing.
pub fn draw_font_fg<T: Bitmap>(
    buf: &mut T,
    x: i64,
    y: i64,
    color: u32,
    c: char,
    font_source: &[u8],
)
    requires
        old(buf).sp_wf(),
        -0x20000 <= x <= 0x20000,
        -0x20000 <= y <= 0x20000,
    ensures
        final(buf).sp_wf(),
        sp_same_dims(final(buf), old(buf)),
        sp_has_glyph(font_source@, c) ==> forall|dx: int, dy: int|
            0 <= dx < 8 && 0 <= dy < 16 && sp_glyph_dot(font_source@, c, dx, dy) == 42
                && sp_in_x_range(old(buf), x + dx) && sp_in_y_range(old(buf), y + dy)
                ==> #[trigger] final(buf).sp_pixel(x + dx, y + dy) == color,
        forall|a: int, b: int|
            #[trigger] final(buf).sp_pixel(a, b) == old(buf).sp_pixel(a, b) || (sp_has_glyph(
                font_source@,
                c,
            ) && x <= a < x + 8 && y <= b < y + 16 && sp_glyph_dot(font_source@, c, a - x, b - y)
                == 42),
        forall|a: int, b: int|
            #[trigger] final(buf).sp_pixel(a, b) == old(buf).sp_pixel(a, b) || final(buf).sp_pixel(a, b) == color,
{
    let glyph = match lookup_font(font_source, c) {
        Some(g) => g,
        None => {
            return ;
        },
    };
    let ghost s0 = *buf;
    let ghost fs = font_source@;
    let mut dy: usize = 0;
    while dy < 16
        invariant
            buf.sp_wf(),
            sp_same_dims(buf, &s0),
            s0.sp_wf(),
            -0x20000 <= x <= 0x20000,
            -0x20000 <= y <= 0x20000,
            0 <= dy <= 16,
            fs == font_source@,
            sp_has_glyph(fs, c),
            glyph.wf(),
            forall|ddx: int, ddy: int|
                0 <= ddx < 8 && 0 <= ddy < 16 ==> glyph.dots@[ddy * 8 + ddx] == sp_glyph_dot(
                    fs,
                    c,
                    ddx,
                    ddy,
                ),
            forall|ddx: int, ddy: int|
                0 <= ddx < 8 && 0 <= ddy < dy && sp_glyph_dot(fs, c, ddx, ddy) == 42
                    && sp_in_x_range(&s0, x + ddx) && sp_in_y_range(&s0, y + ddy)
                    ==> #[trigger] buf.sp_pixel(x + ddx, y + ddy) == color,
            forall|a: int, b: int|
                #[trigger] buf.sp_pixel(a, b) == s0.sp_pixel(a, b) || (x <= a < x + 8 && y <= b
                    < y + dy && sp_glyph_dot(fs, c, a - x, b - y) == 42),
            forall|a: int, b: int|
                #[trigger] buf.sp_pixel(a, b) == s0.sp_pixel(a, b) || buf.sp_pixel(a, b)
                    == color,
        decreases 16 - dy,
    {
        let mut dx: usize = 0;
        while dx < 8
            invariant
                buf.sp_wf(),
                sp_same_dims(buf, &s0),
                s0.sp_wf(),
                -0x20000 <= x <= 0x20000,
                -0x20000 <= y <= 0x20000,
                0 <= dy < 16,
                0 <= dx <= 8,
                fs == font_source@,
                sp_has_glyph(fs, c),
                glyph.wf(),
                forall|ddx: int, ddy: int|
                    0 <= ddx < 8 && 0 <= ddy < 16 ==> glyph.dots@[ddy * 8 + ddx] == sp_glyph_dot(
                        fs,
                        c,
                        ddx,
                        ddy,
                    ),
                forall|ddx: int, ddy: int|
                    0 <= ddx < 8 && 0 <= ddy < dy && sp_glyph_dot(fs, c, ddx, ddy) == 42
                        && sp_in_x_range(&s0, x + ddx) && sp_in_y_range(&s0, y + ddy)
                        ==> #[trigger] buf.sp_pixel(x + ddx, y + ddy) == color,
                forall|ddx: int|
                    0 <= ddx < dx && sp_glyph_dot(fs, c, ddx, dy as int) == 42 && sp_in_x_range(
                        &s0,
                        x + ddx,
                    ) && sp_in_y_range(&s0, y + dy) ==> #[trigger] buf.sp_pixel(
                        x + ddx,
                        y + dy,
                    ) == color,
                forall|a: int, b: int|
                    #[trigger] buf.sp_pixel(a, b) == s0.sp_pixel(a, b) || (x <= a < x + 8 && y
                        <= b < y + dy && sp_glyph_dot(fs, c, a - x, b - y) == 42) || (b == y + dy
                        && x <= a < x + dx && sp_glyph_dot(fs, c, a - x, dy as int) == 42),
                forall|a: int, b: int|
                    #[trigger] buf.sp_pixel(a, b) == s0.sp_pixel(a, b) || buf.sp_pixel(a, b)
                        == color,
            decreases 8 - dx,
        {
            let cell = glyph.dots[dy * 8 + dx];
            if cell == 42 {
                let _ = draw_point(buf, color, x + dx as i64, y + dy as i64);
            }
            dx = dx + 1;
        }
        dy = dy + 1;
    }
}

/// Draws a string left to right, one glyph every 8 columns, the
/// first at `(x, y)`.
pub fn draw_str_fg<T: Bitmap>(
    buf: &mut T,
    x: i64,
    y: i64,
    color: u32,
    s: &str,
    font_source: &[u8],
)
    requires
        old(buf).sp_wf(),
        s@.len() <= 4096,
        -0x10000 <= x <= 0x10000,
        -0x10000 <= y <= 0x10000,
    ensures
        final(buf).sp_wf(),
        sp_same_dims(final(buf), old(buf)),
        forall|k: int, dx: int, dy: int|
            0 <= k < s@.len() && 0 <= dx < 8 && 0 <= dy < 16 && sp_has_glyph(font_source@, s@[k])
                && sp_glyph_dot(font_source@, s@[k], dx, dy) == 42 && sp_in_x_range(
                old(buf),
                x + 8 * k + dx,
            ) && sp_in_y_range(old(buf), y + dy) ==> #[trigger] final(buf).sp_pixel(
                x + 8 * k + dx,
                y + dy,
            ) == color,
        forall|a: int, b: int|
            #[trigger] final(buf).sp_pixel(a, b) == old(buf).sp_pixel(a, b) || (x <= a < x + 8
                * s@.len() && y <= b < y + 16 && sp_has_glyph(font_source@, s@[(a - x) / 8])
                && sp_glyph_dot(font_source@, s@[(a - x) / 8], (a - x) % 8, b - y) == 42),
        forall|a: int, b: int|
            #[trigger] final(buf).sp_pixel(a, b) == old(buf).sp_pixel(a, b) || final(buf).sp_pixel(a, b) == color,
{
    let ghost s0 = *buf;
    let ghost fs = font_source@;
    let n = s.unicode_len();
    let mut i: usize = 0;
    while i < n
        invariant
            buf.sp_wf(),
            sp_same_dims(buf, &s0),
            s0.sp_wf(),
            -0x10000 <= x <= 0x10000,
            -0x10000 <= y <= 0x10000,
            n == s@.len(),
            n <= 4096,
            0 <= i <= n,
            fs == font_source@,
            forall|k: int, dx: int, dy: int|
                0 <= k < i && 0 <= dx < 8 && 0 <= dy < 16 && sp_has_glyph(fs, s@[k])
                    && sp_glyph_dot(fs, s@[k], dx, dy) == 42 && sp_in_x_range(&s0, x + 8 * k + dx)
                    && sp_in_y_range(&s0, y + dy) ==> #[trigger] buf.sp_pixel(
                    x + 8 * k + dx,
                    y + dy,
                ) == color,
            forall|a: int, b: int|
                #[trigger] buf.sp_pixel(a, b) == s0.sp_pixel(a, b) || (x <= a < x + 8 * i && y
                    <= b < y + 16 && sp_has_glyph(fs, s@[(a - x) / 8]) && sp_glyph_dot(
                    fs,
                    s@[(a - x) / 8],
                    (a - x) % 8,
                    b - y,
                ) == 42),
            forall|a: int, b: int|
                #[trigger] buf.sp_pixel(a, b) == s0.sp_pixel(a, b) || buf.sp_pixel(a, b)
                    == color,
        decreases n - i,
    {
        let ch = s.get_char(i);
        let ghost prev = *buf;
        draw_font_fg(buf, x + (i as i64) * 8, y, color, ch, font_source);
        proof {
            let xi = x as int + i as int * 8;
            // A pixel changed by this glyph lies in its own 8-column
            // band, which recovers the character index from the
            // column.
            assert forall|a: int, b: int|
                #[trigger] buf.sp_pixel(a, b) == s0.sp_pixel(a, b) || (x <= a < x + 8 * (i + 1)
                    && y <= b < y + 16 && sp_has_glyph(fs, s@[(a - x) / 8]) && sp_glyph_dot(
                    fs,
                    s@[(a - x) / 8],
                    (a - x) % 8,
                    b - y,
                ) == 42) by {
                if buf.sp_pixel(a, b) != s0.sp_pixel(a, b) {
                    if buf.sp_pixel(a, b) == prev.sp_pixel(a, b) {
                        assert(prev.sp_pixel(a, b) != s0.sp_pixel(a, b));
                    } else {
                        assert(xi <= a < xi + 8 && y <= b < y + 16 && sp_glyph_dot(
                            fs,
                            ch,
                            a - xi,
                            b - y,
                        ) == 42);
                        vstd::arithmetic::div_mod::lemma_fundamental_div_mod_converse_div(
                            a - x,
                            8,
                            i as int,
                            a - xi,
                        );
                        vstd::arithmetic::div_mod::lemma_fundamental_div_mod_converse_mod(
                            a - x,
                            8,
                            i as int,
                            a - xi,
                        );
                    }
                }
            }
            // Earlier glyphs sit in lower columns, so their lit
            // pixels are untouched by this one.
            assert forall|k: int, dx: int, dy: int|
                0 <= k < i + 1 && 0 <= dx < 8 && 0 <= dy < 16 && sp_has_glyph(fs, s@[k])
                    && sp_glyph_dot(fs, s@[k], dx, dy) == 42 && sp_in_x_range(&s0, x + 8 * k + dx)
                    && sp_in_y_range(&s0, y + dy) implies #[trigger] buf.sp_pixel(
                x + 8 * k + dx,
                y + dy,
            ) == color by {
                if k < i {
                    assert(prev.sp_pixel(x + 8 * k + dx, y + dy) == color);
                    assert(x + 8 * k + dx < xi);
                }
            }
        }
        i = i + 1;
    }
}

/// Draws the boot test pattern in the 129 rightmost columns: eight
/// 64-pixel colour squares and their complements, the diagonals and
/// edges of a square, and two rows of text. Everything left of that
/// strip keeps its pixels.
pub fn draw_test_pattern<T: Bitmap>(buf: &mut T, font_source: &[u8])
    requires
        old(buf).sp_wf(),
        old(buf).sp_width() >= 129,
        old(buf).sp_height() >= 512,
        old(buf).sp_pixels_per_line() >= old(buf).sp_width(),
    ensures
        final(buf).sp_wf(),
        sp_same_dims(final(buf), old(buf)),
        forall|a: int, b: int|
            a < old(buf).sp_width() - 129 ==> #[trigger] final(buf).sp_pixel(a, b) == old(
                buf,
            ).sp_pixel(a, b),
{
    proof {
        buf.wf_bounds();
    }
    let w: i64 = 128;
    let left = buf.width() - w - 1;
    let h: i64 = 64;
    let colors: [u32; 8] = [
        0x000000,
        0xff0000,
        0x00ff00,
        0x0000ff,
        0xffff00,
        0xff00ff,
        0x00ffff,
        0xffffff,
    ];
    let ghost s0 = *buf;
    let mut i: usize = 0;
    while i < 8
        invariant
            buf.sp_wf(),
            sp_same_dims(buf, &s0),
            s0.sp_wf(),
            129 <= s0.sp_width() <= MAX_DIM,
            512 <= s0.sp_height() <= MAX_DIM,
            s0.sp_width() <= s0.sp_pixels_per_line() <= MAX_DIM,
            left == s0.sp_width() - 129,
            h == 64,
            0 <= i <= 8,
            forall|a: int, b: int|
                a < left ==> #[trigger] buf.sp_pixel(a, b) == s0.sp_pixel(a, b),
        decreases 8 - i,
    {
        let c = colors[i];
        let y = (i as i64) * h;
        let r1 = fill_rect(buf, left, y, h, h, c);
        proof {
            assert(r1 is Ok);
        }
        let r2 = fill_rect(buf, left + h, y, h, h, !c);
        proof {
            assert(r2 is Ok);
        }
        i = i + 1;
    }
    let xs: [i64; 4] = [0, 0, 128, 128];
    let ys: [i64; 4] = [0, 128, 0, 128];
    let mut p: usize = 0;
    while p < 4
        invariant
            buf.sp_wf(),
            sp_same_dims(buf, &s0),
            s0.sp_wf(),
            129 <= s0.sp_width() <= MAX_DIM,
            512 <= s0.sp_height() <= MAX_DIM,
            s0.sp_width() <= s0.sp_pixels_per_line() <= MAX_DIM,
            left == s0.sp_width() - 129,
            0 <= p <= 4,
            xs@ == seq![0i64, 0i64, 128i64, 128i64],
            ys@ == seq![0i64, 128i64, 0i64, 128i64],
            forall|a: int, b: int|
                a < left ==> #[trigger] buf.sp_pixel(a, b) == s0.sp_pixel(a, b),
        decreases 4 - p,
    {
        let mut q: usize = 0;
        while q < 4
            invariant
                buf.sp_wf(),
                sp_same_dims(buf, &s0),
                s0.sp_wf(),
                129 <= s0.sp_width() <= MAX_DIM,
                512 <= s0.sp_height() <= MAX_DIM,
                s0.sp_width() <= s0.sp_pixels_per_line() <= MAX_DIM,
                left == s0.sp_width() - 129,
                0 <= p < 4,
                0 <= q <= 4,
                xs@ == seq![0i64, 0i64, 128i64, 128i64],
                ys@ == seq![0i64, 128i64, 0i64, 128i64],
                forall|a: int, b: int|
                    a < left ==> #[trigger] buf.sp_pixel(a, b) == s0.sp_pixel(a, b),
            decreases 4 - q,
        {
            let r = draw_line(buf, 0xffffff, left + xs[p], ys[p], left + xs[q], ys[q]);
            proof {
                assert(r is Ok);
            }
            q = q + 1;
        }
        p = p + 1;
    }
    proof {
        reveal_strlit("0123456789");
        reveal_strlit("ABCDEF");
    }
    draw_str_fg(buf, left, h * 8, 0x00ff00, "0123456789", font_source);
    draw_str_fg(buf, left, h * 8 + 16, 0x00ff00, "ABCDEF", font_source);
}

} // verus!
