//! Drawing onto ARGB pixel canvases through rectangular views.
//!
//! A canvas is a slice of `u32` pixels in rows `stride` pixels apart; a
//! [`CanvasView`] is a rectangle of it, placed at an offset. Shapes are
//! composited over the pixels they cover with [`helpers::apply_argb`].
pub mod bresenham;
pub mod circle;
pub mod helpers;
pub mod paint;
pub mod rainbow;
pub mod ruler;
pub mod sprite;
pub mod triangle;
mod types;

use vstd::prelude::*;
use crate::helpers::{
    apply_argb,
    byte_of,
    from_bytes,
    lemma_byte_extract,
    lemma_bytes_of_from_bytes,
    lemma_from_bytes_of,
    max_int,
    min_int,
    over,
};
use crate::paint::{
    area_ok,
    blend_shade,
    everywhere,
    paint_area,
    paint_span,
    pixel_index,
    pixel_ok,
    set_shade,
    lemma_paint_area_len,
    lemma_paint_span_len,
};
pub use crate::types::NormalRect;

verus! {

/// Whether `v` is a value of `isize`.
pub open spec fn fits_isize(v: int) -> bool {
    isize::MIN <= v <= isize::MAX
}

/// A normalised rectangle as mathematical integers.
pub open spec fn rect_view(r: Option<NormalRect>) -> Option<(int, int, int, int)> {
    match r {
        Some(nr) => Some((nr.0 as int, nr.1 as int, nr.2 as int, nr.3 as int)),
        None => None,
    }
}

/// The span `start .. start + len` with its ends in increasing order.
pub open spec fn ordered_span(start: int, len: int) -> (int, int) {
    if len < 0 {
        (start + len, start)
    } else {
        (start, start + len)
    }
}

/// Whether a span `lo .. hi` misses the view's extent `0 .. extent - 1`.
pub open spec fn misses(lo: int, hi: int, extent: int) -> bool {
    hi <= 0 || lo >= extent - 1
}

/// The rectangle of size `w` by `h` whose corner is `corner` (a negative size
/// stretches it to the left or upwards), clipped to the view as
/// `(x0, x1, y0, y1)`; `None` where it is empty or lies off the view.
pub open spec fn normalised(
    view: CanvasView,
    corner: (isize, isize),
    w: int,
    h: int,
) -> Option<(int, int, int, int)> {
    if w == 0 || h == 0 {
        None
    } else {
        let xs = ordered_span(corner.0 as int, w);
        let ys = ordered_span(corner.1 as int, h);
        if misses(xs.0, xs.1, view.w as int) {
            None
        } else if misses(ys.0, ys.1, view.h as int) {
            None
        } else {
            Some(
                (
                    max_int(xs.0, 0),
                    min_int(xs.1, view.w as int),
                    max_int(ys.0, 0),
                    min_int(ys.1, view.h as int),
                ),
            )
        }
    }
}

/// Whether `normalise_rect` computes its corners without overflow: the far
/// horizontal end always, the far vertical end once the horizontal span
/// meets the view.
pub open spec fn normalise_defined(view: CanvasView, corner: (isize, isize), w: int, h: int) -> bool {
    w != 0 && h != 0 ==> {
        &&& fits_isize(corner.0 + w)
        &&& !misses(ordered_span(corner.0 as int, w).0, ordered_span(corner.0 as int, w).1, view.w as int)
            ==> fits_isize(corner.1 + h)
    }
}

/// Clips a rectangle to a view.
///
/// The rectangle has its corner at `corner` and extends `w` across and `h`
/// down, or to the left and up for negative sizes. The result is
/// `(x0, x1, y0, y1)`, the half-open column and row ranges of the visible
/// part in the view's coordinates, or `None` when a size is zero or the
/// rectangle misses the view (a rectangle that starts on the view's last
/// column or row counts as missing).
pub fn normalise_rect(
    view: &CanvasView,
    corner: (isize, isize),
    w: isize,
    h: isize,
) -> (r: Option<NormalRect>)
    requires
        view.dims_fit(),
        normalise_defined(*view, corner, w as int, h as int),
    ensures
        rect_view(r) == normalised(*view, corner, w as int, h as int),
{
    if w == 0 || h == 0 {
        return None;
    }
    let (x0, x1) = if w < 0 {
        (corner.0 + w, corner.0)
    } else {
        (corner.0, corner.0 + w)
    };
    let vw = view.w as isize;
    let vh = view.h as isize;
    if x1 <= 0 || x0 >= vw - 1 {
        return None;
    }
    let (y0, y1) = if h < 0 {
        (corner.1 + h, corner.1)
    } else {
        (corner.1, corner.1 + h)
    };
    if y1 <= 0 || y0 >= vh - 1 {
        return None;
    }
    Some(
        (
            if x0 > 0 {
                x0
            } else {
                0
            },
            if x1 < vw {
                x1
            } else {
                vw
            },
            if y0 > 0 {
                y0
            } else {
                0
            },
            if y1 < vh {
                y1
            } else {
                vh
            },
        ),
    )
}

/// Whether a span `lo .. hi` lies wholly outside the extent `0 .. extent`.
pub open spec fn outside(lo: int, hi: int, extent: int) -> bool {
    hi <= 0 || lo >= extent
}

/// The rectangle of size `w` by `h` whose corner is `corner` (a negative
/// size stretches it to the left or upwards), clipped to the view as
/// `(x0, x1, y0, y1)`; `None` where a size is zero or the rectangle lies
/// wholly outside the view. Unlike `normalised`, a rectangle that starts
/// on the view's last column or row keeps its visible part.
pub open spec fn clipped(view: CanvasView, corner: (isize, isize), w: int, h: int) -> Option<(int, int, int, int)> {
    if w == 0 || h == 0 {
        None
    } else {
        let xs = ordered_span(corner.0 as int, w);
        let ys = ordered_span(corner.1 as int, h);
        if outside(xs.0, xs.1, view.w as int) {
            None
        } else if outside(ys.0, ys.1, view.h as int) {
            None
        } else {
            Some(
                (
                    max_int(xs.0, 0),
                    min_int(xs.1, view.w as int),
                    max_int(ys.0, 0),
                    min_int(ys.1, view.h as int),
                ),
            )
        }
    }
}

/// Whether `clip_rect` computes its corners without overflow: the far
/// horizontal end always, the far vertical end once the horizontal span
/// meets the view.
pub open spec fn clip_defined(view: CanvasView, corner: (isize, isize), w: int, h: int) -> bool {
    w != 0 && h != 0 ==> {
        &&& fits_isize(corner.0 + w)
        &&& !outside(ordered_span(corner.0 as int, w).0, ordered_span(corner.0 as int, w).1, view.w as int)
            ==> fits_isize(corner.1 + h)
    }
}

/// Clips a rectangle to a view, keeping whatever part of it lies in the view.
fn clip_rect(view: &CanvasView, corner: (isize, isize), w: isize, h: isize) -> (r: Option<NormalRect>)
    requires
        view.dims_fit(),
        clip_defined(*view, corner, w as int, h as int),
    ensures
        rect_view(r) == clipped(*view, corner, w as int, h as int),
{
    if w == 0 || h == 0 {
        return None;
    }
    let (x0, x1) = if w < 0 {
        (corner.0 + w, corner.0)
    } else {
        (corner.0, corner.0 + w)
    };
    let vw = view.w as isize;
    let vh = view.h as isize;
    if x1 <= 0 || x0 >= vw {
        return None;
    }
    let (y0, y1) = if h < 0 {
        (corner.1 + h, corner.1)
    } else {
        (corner.1, corner.1 + h)
    };
    if y1 <= 0 || y0 >= vh {
        return None;
    }
    Some(
        (
            if x0 > 0 {
                x0
            } else {
                0
            },
            if x1 < vw {
                x1
            } else {
                vw
            },
            if y0 > 0 {
                y0
            } else {
                0
            },
            if y1 < vh {
                y1
            } else {
                vh
            },
        ),
    )
}

/// Anti-aliasing for circles: `Enabled(n)` samples each pixel on an `n` by
/// `n` grid (at most 4 by 4); `Disabled` tests the pixel alone.
pub enum AntiAliasing {
    Disabled,
    Enabled(u32),
}

/// The fill of a triangle: one colour, or three corner colours blended by
/// barycentric weights.
pub enum Colour {
    Single(u32),
    Triplet(u32, u32, u32),
}

/// A rectangle of a canvas: `w` by `h` pixels whose top left pixel is at
/// `offset` in a canvas whose rows are `stride` pixels apart.
#[derive(Debug)]
pub struct CanvasView {
    pub offset: (isize, isize),
    pub w: u32,
    pub h: u32,
    pub stride: u32,
}

/// Whether `v` lies in the half-open range `lo .. hi`.
pub open spec fn within(v: int, lo: int, hi: int) -> bool {
    lo <= v < hi
}

/// Pixel conversion from RGBA to ARGB: the alpha byte moves from the bottom to the top.
pub open spec fn rgba_to_argb(c: u32) -> u32 {
    ((c as int % 0x100) * 0x100_0000 + c as int / 0x100) as u32
}

/// Pixel conversion from ARGB to RGBA: the alpha byte moves from the top to the bottom.
pub open spec fn argb_to_rgba(c: u32) -> u32 {
    (c as int / 0x100_0000 + (c as int % 0x100_0000) * 0x100) as u32
}

impl CanvasView {
    /// Whether the view's width and height are values of `isize` (always so
    /// where `isize` has 64 bits).
    pub open spec fn dims_fit(&self) -> bool {
        &&& self.w as int <= isize::MAX
        &&& self.h as int <= isize::MAX
    }

    /// The view's columns in canvas coordinates, as a start and an end.
    pub open spec fn cols(&self) -> (int, int) {
        (self.offset.0 as int, self.offset.0 + self.w)
    }

    /// The view's rows in canvas coordinates, as a start and an end.
    pub open spec fn rows(&self) -> (int, int) {
        (self.offset.1 as int, self.offset.1 + self.h)
    }

    /// The view that `subview` gives for a normalised rectangle.
    pub open spec fn sub_of(&self, offset: (isize, isize), nr: (int, int, int, int)) -> CanvasView {
        CanvasView {
            offset: ((offset.0 + self.offset.0) as isize, (offset.1 + self.offset.1) as isize),
            w: (nr.1 - nr.0) as u32,
            h: (nr.3 - nr.2) as u32,
            stride: self.stride,
        }
    }

    /// A view of a whole `w` by `h` canvas: at offset `(0, 0)`, with a stride of `w`.
    pub fn new(w: u32, h: u32) -> (r: Self)
        ensures
            r.offset == (0isize, 0isize),
            r.w == w,
            r.h == h,
            r.stride == w,
    {
        Self { offset: (0, 0), w, h, stride: w }
    }

    /// A view of part of this one.
    ///
    /// The rectangle of size `w` by `h` at `offset` (relative to this view)
    /// is clipped to this view; the new view has the clipped size, the same
    /// stride, and the offset `offset` moved by this view's offset (the
    /// offset is not clipped). `None` where the clipped rectangle is empty.
    pub fn subview(&self, offset: (isize, isize), w: u32, h: u32) -> (r: Option<Self>)
        requires
            self.dims_fit(),
            w as int <= isize::MAX,
            h as int <= isize::MAX,
            normalise_defined(*self, offset, w as int, h as int),
            normalised(*self, offset, w as int, h as int) is Some ==> {
                &&& fits_isize(offset.0 + self.offset.0)
                &&& fits_isize(offset.1 + self.offset.1)
            },
        ensures
            r == match normalised(*self, offset, w as int, h as int) {
                Some(nr) => Some(self.sub_of(offset, nr)),
                None => None,
            },
            r matches Some(v) ==> v.w <= self.w && v.h <= self.h,
    {
        match normalise_rect(self, offset, w as isize, h as isize) {
            Some(nr) => {
                proof {
                    lemma_normalised_bounds(*self, offset, w as int, h as int);
                }
                Some(
                    Self {
                        offset: (offset.0 + self.offset.0, offset.1 + self.offset.1),
                        w: (nr.1 - nr.0) as u32,
                        h: (nr.3 - nr.2) as u32,
                        stride: self.stride,
                    },
                )
            },
            None => None,
        }
    }

    /// Converts RGBA pixels of `src` to ARGB pixels in `dst`, one for each
    /// pixel of `dst`.
    pub fn rgba32_to_argb32(&self, src: &[u32], dst: &mut [u32])
        requires
            src@.len() >= old(dst)@.len(),
        ensures
            final(dst)@.len() == old(dst)@.len(),
            forall|i: int| 0 <= i < old(dst)@.len() ==> #[trigger] final(dst)@[i] == rgba_to_argb(src@[i]),
    {
        let n = dst.len();
        let mut idx: usize = 0;
        while idx < n
            invariant
                idx <= n,
                n == old(dst)@.len(),
                dst@.len() == n,
                src@.len() >= n,
                forall|i: int| 0 <= i < idx ==> #[trigger] dst@[i] == rgba_to_argb(src@[i]),
            decreases n - idx,
        {
            let c = src[idx];
            let v = ((c & 0xFF) << 24) | ((c & 0xFFFFFF00) >> 8);
            assert(v == rgba_to_argb(c)) by {
                assert(((c & 0xFFu32) << 24u32) | ((c & 0xFFFFFF00u32) >> 8u32) == (c % 0x100u32)
                    * 0x100_0000u32 + c / 0x100u32) by (bit_vector);
            }
            dst[idx] = v;
            idx += 1;
        }
    }

    /// Converts ARGB pixels of `src` to RGBA pixels in `dst`, one for each
    /// pixel of `dst`.
    pub fn argb32_to_rgba32(&self, src: &[u32], dst: &mut [u32])
        requires
            src@.len() >= old(dst)@.len(),
        ensures
            final(dst)@.len() == old(dst)@.len(),
            forall|i: int| 0 <= i < old(dst)@.len() ==> #[trigger] final(dst)@[i] == argb_to_rgba(src@[i]),
    {
        let n = dst.len();
        let mut idx: usize = 0;
        while idx < n
            invariant
                idx <= n,
                n == old(dst)@.len(),
                dst@.len() == n,
                src@.len() >= n,
                forall|i: int| 0 <= i < idx ==> #[trigger] dst@[i] == argb_to_rgba(src@[i]),
            decreases n - idx,
        {
            let c = src[idx];
            let v = ((c & 0xFF000000) >> 24) | ((c & 0x00FFFFFF) << 8);
            assert(v == argb_to_rgba(c)) by {
                assert(((c & 0xFF000000u32) >> 24u32) | ((c & 0x00FFFFFFu32) << 8u32) == c
                    / 0x100_0000u32 + (c % 0x100_0000u32) * 0x100u32) by (bit_vector);
            }
            dst[idx] = v;
            idx += 1;
        }
    }

    /// Sets every pixel of the view to `colour`, row by row.
    pub fn fill(&self, canvas: &mut [u32], colour: u32)
        requires
            self.dims_fit(),
            fits_isize(self.rows().1),
            self.h > 0 ==> fits_isize(self.cols().1),
            area_ok(
                old(canvas)@.len() as int,
                self.stride as int,
                self.cols().0,
                self.cols().1,
                self.rows().0,
                self.rows().1,
                everywhere(),
            ),
        ensures
            final(canvas)@ == paint_area(
                old(canvas)@,
                self.stride as int,
                self.cols().0,
                self.cols().1,
                self.rows().0,
                self.rows().1,
                everywhere(),
                set_shade(colour),
            ),
    {
        let y0 = self.offset.1;
        let y1 = self.offset.1 + self.h as isize;
        let stride = self.stride;
        let ghost start = canvas@;
        let ghost len = canvas@.len() as int;
        let ghost (gx0, gx1) = self.cols();
        let mut y = y0;
        while y < y1
            invariant
                y0 <= y,
                y <= y1 || y == y0,
                y0 == self.rows().0,
                y1 == self.rows().1,
                stride == self.stride,
                self.dims_fit(),
                self.h > 0 ==> fits_isize(self.cols().1),
                gx0 == self.cols().0,
                gx1 == self.cols().1,
                len == start.len(),
                area_ok(len, stride as int, gx0, gx1, y0 as int, y1 as int, everywhere()),
                canvas@ == paint_area(
                    start,
                    stride as int,
                    gx0,
                    gx1,
                    y0 as int,
                    y as int,
                    everywhere(),
                    set_shade(colour),
                ),
            decreases y1 - y,
        {
            proof {
                lemma_paint_area_len(start, stride as int, gx0, gx1, y0 as int, y as int, everywhere(), set_shade(colour));
            }
            let x0 = self.offset.0;
            let x1 = self.offset.0 + self.w as isize;
            let ghost row_start = canvas@;
            let mut x = x0;
            while x < x1
                invariant
                    x0 <= x,
                    x <= x1 || x == x0,
                    x0 == gx0,
                    x1 == gx1,
                    y0 <= y < y1,
                    stride == self.stride,
                    row_start.len() == len,
                    area_ok(len, stride as int, gx0, gx1, y0 as int, y1 as int, everywhere()),
                    canvas@ == paint_span(
                        row_start,
                        stride as int,
                        y as int,
                        x0 as int,
                        x as int,
                        everywhere(),
                        set_shade(colour),
                    ),
                decreases x1 - x,
            {
                proof {
                    lemma_paint_span_len(row_start, stride as int, y as int, x0 as int, x as int, everywhere(), set_shade(colour));
                    assert(everywhere()(x as int, y as int));
                }
                set_pixel(canvas, x, y, stride, colour);
                x += 1;
            }
            y += 1;
        }
    }

    /// Composites `colour` over the part of the rectangle of size `w` by `h`
    /// at `corner` (a negative size extends it to the left or up) that
    /// `normalise_rect` keeps.
    pub fn add_rect(&self, canvas: &mut [u32], corner: (isize, isize), w: isize, h: isize, colour: u32)
        requires
            self.dims_fit(),
            normalise_defined(*self, corner, w as int, h as int),
            normalised(*self, corner, w as int, h as int) matches Some(nr) ==> self.rect_ok(
                nr,
                old(canvas)@.len() as int,
                everywhere(),
            ),
        ensures
            final(canvas)@ == match normalised(*self, corner, w as int, h as int) {
                Some(nr) => self.paint_rect(old(canvas)@, nr, everywhere(), blend_shade(colour)),
                None => old(canvas)@,
            },
    {
        match normalise_rect(self, corner, w, h) {
            Some(nr) => {
                let y0 = nr.2 + self.offset.1;
                let y1 = nr.3 + self.offset.1;
                if y0 < y1 {
                    blend_area(canvas, self.stride, nr.0 + self.offset.0, nr.1 + self.offset.0, y0, y1, colour);
                }
            },
            None => {},
        }
    }

    /// A clipped rectangle moved into canvas coordinates, as `(x0, x1, y0, y1)`.
    pub open spec fn placed(&self, nr: (int, int, int, int)) -> (int, int, int, int) {
        (nr.0 + self.offset.0, nr.1 + self.offset.0, nr.2 + self.offset.1, nr.3 + self.offset.1)
    }

    /// Whether drawing over the clipped rectangle `nr` is defined: the row
    /// bounds in canvas coordinates are values of `isize`, so are the column
    /// bounds where there are rows, and every covered pixel can be reached.
    pub open spec fn rect_ok(&self, nr: (int, int, int, int), len: int, covers: spec_fn(int, int) -> bool) -> bool {
        let p = self.placed(nr);
        &&& fits_isize(p.2)
        &&& fits_isize(p.3)
        &&& p.2 < p.3 ==> fits_isize(p.0) && fits_isize(p.1)
        &&& area_ok(len, self.stride as int, p.0, p.1, p.2, p.3, covers)
    }

    /// The canvas after painting the clipped rectangle `nr`.
    pub open spec fn paint_rect(
        &self,
        s: Seq<u32>,
        nr: (int, int, int, int),
        covers: spec_fn(int, int) -> bool,
        shade: spec_fn(int, int, u32) -> u32,
    ) -> Seq<u32> {
        let p = self.placed(nr);
        paint_area(s, self.stride as int, p.0, p.1, p.2, p.3, covers, shade)
    }
}

/// Converting a pixel from RGBA to ARGB and back, or the other way round,
/// gives the pixel back.
pub proof fn law_pixel_conversions_invert(c: u32)
    ensures
        argb_to_rgba(rgba_to_argb(c)) == c,
        rgba_to_argb(argb_to_rgba(c)) == c,
{
    let a = rgba_to_argb(c);
    let b = argb_to_rgba(c);
    assert(a == (c % 0x100u32) * 0x100_0000u32 + c / 0x100u32) by {
        assert((c % 0x100u32) * 0x100_0000u32 + c / 0x100u32 <= u32::MAX) by (bit_vector);
    }
    assert(b == c / 0x100_0000u32 + (c % 0x100_0000u32) * 0x100u32) by {
        assert(c / 0x100_0000u32 + (c % 0x100_0000u32) * 0x100u32 <= u32::MAX) by (bit_vector);
    }
    assert(a / 0x100_0000u32 + (a % 0x100_0000u32) * 0x100u32 == c) by (bit_vector)
        requires
            a == (c % 0x100u32) * 0x100_0000u32 + c / 0x100u32,
    ;
    assert((b % 0x100u32) * 0x100_0000u32 + b / 0x100u32 == c) by (bit_vector)
        requires
            b == c / 0x100_0000u32 + (c % 0x100_0000u32) * 0x100u32,
    ;
}

/// Converting from RGBA to ARGB moves the lowest byte (alpha) to the top
/// and every other byte down by one place; converting from ARGB to RGBA
/// moves the top byte to the bottom and every other byte up by one place.
pub proof fn law_pixel_conversions_move_alpha(c: u32)
    ensures
        byte_of(rgba_to_argb(c), 3) == byte_of(c, 0),
        byte_of(rgba_to_argb(c), 2) == byte_of(c, 3),
        byte_of(rgba_to_argb(c), 1) == byte_of(c, 2),
        byte_of(rgba_to_argb(c), 0) == byte_of(c, 1),
        byte_of(argb_to_rgba(c), 3) == byte_of(c, 2),
        byte_of(argb_to_rgba(c), 2) == byte_of(c, 1),
        byte_of(argb_to_rgba(c), 1) == byte_of(c, 0),
        byte_of(argb_to_rgba(c), 0) == byte_of(c, 3),
{
    lemma_byte_extract(c);
    lemma_from_bytes_of(c);
    let (b3, b2, b1, b0) = (byte_of(c, 3), byte_of(c, 2), byte_of(c, 1), byte_of(c, 0));
    let ci = c as int;
    assert(ci == b3 * 0x100_0000 + b2 * 0x1_0000 + b1 * 0x100 + b0);
    vstd::arithmetic::div_mod::lemma_fundamental_div_mod_converse(ci, 0x100, b3 * 0x1_0000 + b2 * 0x100 + b1, b0);
    vstd::arithmetic::div_mod::lemma_fundamental_div_mod_converse(ci, 0x100_0000, b3, b2 * 0x1_0000 + b1 * 0x100 + b0);
    assert(rgba_to_argb(c) as int == from_bytes(b0, b3, b2, b1));
    assert(argb_to_rgba(c) as int == from_bytes(b2, b1, b0, b3));
    lemma_bytes_of_from_bytes(b0, b3, b2, b1);
    lemma_bytes_of_from_bytes(b2, b1, b0, b3);
}

/// Where the view lies inside the stride, `fill` sets exactly the pixels
/// whose column and row fall in the view to the colour, and leaves every
/// other pixel as it was.
pub proof fn law_fill_sets_view(view: CanvasView, s: Seq<u32>, colour: u32, i: int)
    requires
        view.stride > 0,
        0 <= view.offset.0,
        view.offset.0 + view.w <= view.stride,
        area_ok(s.len() as int, view.stride as int, view.cols().0, view.cols().1, view.rows().0, view.rows().1, everywhere()),
        0 <= i < s.len(),
    ensures
        paint_area(
            s,
            view.stride as int,
            view.cols().0,
            view.cols().1,
            view.rows().0,
            view.rows().1,
            everywhere(),
            set_shade(colour),
        )[i] == if view.offset.0 <= (i % view.stride as int) < view.offset.0 + view.w && view.offset.1 <= (i
            / view.stride as int) < view.offset.1 + view.h {
            colour
        } else {
            s[i]
        },
{
    crate::paint::lemma_paint_area_pointwise(
        s,
        view.stride as int,
        view.cols().0,
        view.cols().1,
        view.rows().0,
        view.rows().1,
        everywhere(),
        set_shade(colour),
        i,
    );
}

/// Where the clipped rectangle lies inside the stride, `add_rect`
/// composites the colour exactly once over each pixel whose column and row
/// fall in the rectangle, and leaves every other pixel as it was.
pub proof fn law_rect_blends_once(view: CanvasView, s: Seq<u32>, nr: (int, int, int, int), colour: u32, i: int)
    requires
        view.stride > 0,
        0 <= view.placed(nr).0,
        view.placed(nr).1 <= view.stride,
        view.rect_ok(nr, s.len() as int, everywhere()),
        0 <= i < s.len(),
    ensures
        view.paint_rect(s, nr, everywhere(), blend_shade(colour))[i] == if within(
            i % view.stride as int,
            view.placed(nr).0,
            view.placed(nr).1,
        ) && within(i / view.stride as int, view.placed(nr).2, view.placed(nr).3) {
            over(s[i], colour)
        } else {
            s[i]
        },
{
    let p = view.placed(nr);
    crate::paint::lemma_paint_area_pointwise(
        s,
        view.stride as int,
        p.0,
        p.1,
        p.2,
        p.3,
        everywhere(),
        blend_shade(colour),
        i,
    );
}

/// Where the view lies inside the stride, `add_rect` composites the colour
/// once over each pixel of the view that the rectangle covers, and leaves
/// every other pixel as it was. The rectangle spans the columns from
/// `corner.0` to `corner.0 + w` and the rows from `corner.1` to
/// `corner.1 + h`, in whichever order, the far ends excluded; it is drawn
/// only where both sizes are non-zero and its near ends lie before the
/// view's last column and last row.
pub proof fn law_rect_covers_its_pixels(
    view: CanvasView,
    s: Seq<u32>,
    corner: (isize, isize),
    w: int,
    h: int,
    colour: u32,
    i: int,
)
    requires
        inside_stride(view),
        normalised(view, corner, w, h) matches Some(nr) ==> view.rect_ok(nr, s.len() as int, everywhere()),
        0 <= i < s.len(),
    ensures
        ({
            let x = i % view.stride as int - view.offset.0;
            let y = i / view.stride as int - view.offset.1;
            let (lo_x, hi_x) = if w < 0 {
                (corner.0 + w, corner.0 as int)
            } else {
                (corner.0 as int, corner.0 + w)
            };
            let (lo_y, hi_y) = if h < 0 {
                (corner.1 + h, corner.1 as int)
            } else {
                (corner.1 as int, corner.1 + h)
            };
            let covered = w != 0 && h != 0 && 0 <= x < view.w && 0 <= y < view.h && lo_x <= x < hi_x && lo_y <= y
                < hi_y && lo_x < view.w - 1 && lo_y < view.h - 1;
            (match normalised(view, corner, w, h) {
                Some(nr) => view.paint_rect(s, nr, everywhere(), blend_shade(colour)),
                None => s,
            })[i] == if covered {
                over(s[i], colour)
            } else {
                s[i]
            }
        }),
{
    match normalised(view, corner, w, h) {
        Some(nr) => {
            lemma_normalised_bounds(view, corner, w, h);
            law_rect_blends_once(view, s, nr, colour, i);
        },
        None => {},
    }
}

/// A subview shares its parent's stride, starts at the requested offset
/// moved by the parent's offset (unclipped), and is as wide and as tall as
/// the part of the requested rectangle that lies in the parent, from the
/// rectangle's near edge (or the parent's, where that lies further in) to
/// its far edge (or the parent's, where that comes first).
pub proof fn law_subview_shape(view: CanvasView, offset: (isize, isize), w: u32, h: u32)
    requires
        normalised(view, offset, w as int, h as int) is Some,
    ensures
        ({
            let v = view.sub_of(offset, normalised(view, offset, w as int, h as int)->0);
            let x1 = if offset.0 + w < view.w { offset.0 + w } else { view.w as int };
            let y1 = if offset.1 + h < view.h { offset.1 + h } else { view.h as int };
            let x0 = if offset.0 > 0 { offset.0 as int } else { 0 };
            let y0 = if offset.1 > 0 { offset.1 as int } else { 0 };
            &&& v.stride == view.stride
            &&& fits_isize(offset.0 + view.offset.0) ==> v.offset.0 == offset.0 + view.offset.0
            &&& fits_isize(offset.1 + view.offset.1) ==> v.offset.1 == offset.1 + view.offset.1
            &&& v.w == x1 - x0
            &&& v.h == y1 - y0
        }),
{
    lemma_normalised_bounds(view, offset, w as int, h as int);
}

/// Composites `colour` over point `p` of the view, if it lies in the view.
pub open spec fn paint_point(s: Seq<u32>, view: CanvasView, p: (int, int), colour: u32) -> Seq<u32> {
    if 0 <= p.0 < view.w && 0 <= p.1 < view.h {
        let i = pixel_index(p.0 + view.offset.0, p.1 + view.offset.1, view.stride as int);
        s.update(i, over(s[i], colour))
    } else {
        s
    }
}

/// Whether point `p` of the view, if it lies in the view, can be drawn: its
/// canvas coordinates are values of `isize` and its pixel can be reached.
pub open spec fn point_ok(view: CanvasView, p: (int, int), len: int) -> bool {
    0 <= p.0 < view.w && 0 <= p.1 < view.h ==> {
        &&& fits_isize(p.0 + view.offset.0)
        &&& fits_isize(p.1 + view.offset.1)
        &&& pixel_ok(p.0 + view.offset.0, p.1 + view.offset.1, view.stride as int, len)
    }
}

/// Whether the view lies inside the stride: it starts at a column and row
/// of the canvas and its rows do not run past the stride.
pub open spec fn inside_stride(view: CanvasView) -> bool {
    &&& view.stride > 0
    &&& view.offset.0 >= 0
    &&& view.offset.0 + view.w <= view.stride
    &&& view.offset.1 >= 0
}

/// Canvas index `i` as a point of the view.
pub open spec fn view_coords(view: CanvasView, i: int) -> (int, int) {
    (i % view.stride as int - view.offset.0, i / view.stride as int - view.offset.1)
}

pub open spec fn in_view(view: CanvasView, q: (int, int)) -> bool {
    0 <= q.0 < view.w && 0 <= q.1 < view.h
}

/// Painting a point of a view that lies inside the stride changes that
/// point's pixel alone.
pub proof fn lemma_paint_point_at(s: Seq<u32>, view: CanvasView, q: (int, int), c: u32, i: int)
    requires
        inside_stride(view),
        in_view(view, q),
        point_ok(view, q, s.len() as int),
        0 <= i < s.len(),
    ensures
        paint_point(s, view, q, c).len() == s.len(),
        paint_point(s, view, q, c)[i] == if view_coords(view, i) == q {
            over(s[i], c)
        } else {
            s[i]
        },
{
    let stride = view.stride as int;
    let (x, y) = (q.0 + view.offset.0, q.1 + view.offset.1);
    crate::paint::lemma_index_coords(x, y, stride);
    crate::paint::lemma_coords_index(i, stride);
    let idx = crate::paint::pixel_index(x, y, stride);
    if view_coords(view, i) == q {
        assert(i % stride == x && i / stride == y);
        assert(i == idx);
    }
}

/// Clipping keeps exactly the part of a rectangle that lies in the view:
/// a point of the view lies in the clipped rectangle if and only if it lies
/// in the rectangle, and the clipped rectangle lies in the view.
pub proof fn law_clipped_is_visible_part(view: CanvasView, corner: (isize, isize), w: int, h: int, x: int, y: int)
    requires
        0 <= x < view.w,
        0 <= y < view.h,
    ensures
        (clipped(view, corner, w, h) matches Some(nr) && nr.0 <= x < nr.1 && nr.2 <= y < nr.3) <==> (w != 0
            && h != 0 && ordered_span(corner.0 as int, w).0 <= x < ordered_span(corner.0 as int, w).1
            && ordered_span(corner.1 as int, h).0 <= y < ordered_span(corner.1 as int, h).1),
        clipped(view, corner, w, h) matches Some(nr) ==> 0 <= nr.0 <= nr.1 <= view.w && 0 <= nr.2 <= nr.3
            <= view.h,
{
}

/// A clipped rectangle lies in the view.
pub proof fn lemma_clipped_bounds(view: CanvasView, corner: (isize, isize), w: int, h: int)
    requires
        clipped(view, corner, w, h) is Some,
    ensures
        ({
            let nr = clipped(view, corner, w, h)->0;
            &&& 0 <= nr.0 <= nr.1 <= view.w
            &&& 0 <= nr.2 <= nr.3 <= view.h
        }),
{
}

/// Bounds of a clipped rectangle: each range lies in the view and is not reversed.
pub proof fn lemma_normalised_bounds(view: CanvasView, corner: (isize, isize), w: int, h: int)
    requires
        normalised(view, corner, w, h) is Some,
    ensures
        ({
            let nr = normalised(view, corner, w, h)->0;
            &&& 0 <= nr.0 <= nr.1 <= view.w
            &&& 0 <= nr.2 <= nr.3 <= view.h
        }),
{
}

/// The canvas index of pixel `(x, y)`, computed in `usize` as the drawing code does.
fn pixel_offset(x: isize, y: isize, stride: u32, len: usize) -> (i: usize)
    requires
        pixel_ok(x as int, y as int, stride as int, len as int),
    ensures
        i as int == pixel_index(x as int, y as int, stride as int),
{
    assert((y as usize) as int * stride as int == y as int * stride as int) by (nonlinear_arith)
        requires
            y >= 0 || stride == 0,
            y >= 0 ==> (y as usize) as int == y as int,
    ;
    x as usize + y as usize * stride as usize
}

/// Composites `colour` over pixel `(x, y)`.
fn blend_pixel(canvas: &mut [u32], x: isize, y: isize, stride: u32, colour: u32)
    requires
        pixel_ok(x as int, y as int, stride as int, old(canvas)@.len() as int),
    ensures
        final(canvas)@ == ({
            let i = pixel_index(x as int, y as int, stride as int);
            old(canvas)@.update(i, over(old(canvas)@[i], colour))
        }),
{
    let i = pixel_offset(x, y, stride, canvas.len());
    let mut p = canvas[i];
    apply_argb(&mut p, colour);
    canvas[i] = p;
}

/// Sets pixel `(x, y)` to `colour`.
fn set_pixel(canvas: &mut [u32], x: isize, y: isize, stride: u32, colour: u32)
    requires
        pixel_ok(x as int, y as int, stride as int, old(canvas)@.len() as int),
    ensures
        final(canvas)@ == old(canvas)@.update(pixel_index(x as int, y as int, stride as int), colour),
{
    let i = pixel_offset(x, y, stride, canvas.len());
    canvas[i] = colour;
}

/// Composites `colour` over every pixel of the rectangle `x0 .. x1` by
/// `y0 .. y1`, row by row.
fn blend_area(canvas: &mut [u32], stride: u32, x0: isize, x1: isize, y0: isize, y1: isize, colour: u32)
    requires
        area_ok(old(canvas)@.len() as int, stride as int, x0 as int, x1 as int, y0 as int, y1 as int, everywhere()),
    ensures
        final(canvas)@ == paint_area(
            old(canvas)@,
            stride as int,
            x0 as int,
            x1 as int,
            y0 as int,
            y1 as int,
            everywhere(),
            blend_shade(colour),
        ),
{
    let ghost start = canvas@;
    let ghost len = canvas@.len() as int;
    let mut y = y0;
    while y < y1
        invariant
            y0 <= y,
            y <= y1 || y == y0,
            len == start.len(),
            area_ok(len, stride as int, x0 as int, x1 as int, y0 as int, y1 as int, everywhere()),
            canvas@ == paint_area(
                start,
                stride as int,
                x0 as int,
                x1 as int,
                y0 as int,
                y as int,
                everywhere(),
                blend_shade(colour),
            ),
        decreases y1 - y,
    {
        proof {
            lemma_paint_area_len(start, stride as int, x0 as int, x1 as int, y0 as int, y as int, everywhere(), blend_shade(colour));
        }
        let ghost row_start = canvas@;
        let mut x = x0;
        while x < x1
            invariant
                x0 <= x,
                x <= x1 || x == x0,
                y0 <= y < y1,
                row_start.len() == len,
                area_ok(len, stride as int, x0 as int, x1 as int, y0 as int, y1 as int, everywhere()),
                canvas@ == paint_span(
                    row_start,
                    stride as int,
                    y as int,
                    x0 as int,
                    x as int,
                    everywhere(),
                    blend_shade(colour),
                ),
            decreases x1 - x,
        {
            proof {
                lemma_paint_span_len(row_start, stride as int, y as int, x0 as int, x as int, everywhere(), blend_shade(colour));
                assert(everywhere()(x as int, y as int));
            }
            blend_pixel(canvas, x, y, stride, colour);
            x += 1;
        }
        y += 1;
    }
}

} // verus!
