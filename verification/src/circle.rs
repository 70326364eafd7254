//! Discs: the pixel test with and without anti-aliasing, and drawing them.
use vstd::prelude::*;
use crate::{AntiAliasing, CanvasView, clip_defined, clip_rect, clipped, fits_isize, inside_stride, pixel_offset};
use crate::helpers::{apply_argb, byte_of, lemma_byte_extract, over};
use crate::paint::{
    area_ok,
    blend_shade,
    everywhere,
    paint_area,
    paint_span,
    lemma_paint_area_len,
    lemma_paint_span_len,
};

verus! {

/// `a - b` saturated to the range of `isize`.
pub open spec fn sat_sub(a: int, b: int) -> int {
    if a - b < isize::MIN {
        isize::MIN as int
    } else if a - b > isize::MAX {
        isize::MAX as int
    } else {
        a - b
    }
}

/// The radius as the drawing code reads it: `r as isize`.
pub open spec fn radius(r: usize) -> int {
    (r as isize) as int
}

/// The corner of the disc's bounding square: the centre less the radius.
pub open spec fn disc_corner(cp: (isize, isize), r: usize) -> (int, int) {
    (cp.0 - radius(r), cp.1 - radius(r))
}

/// The side of the disc's bounding square: `(r << 1) as isize + 1`.
pub open spec fn disc_side(r: usize) -> int {
    ((r << 1u32) as isize) as int + 1
}

/// A disc with its centre `(cx, cy)` in canvas coordinates and radius `r`.
pub struct Disc {
    pub cx: int,
    pub cy: int,
    pub r: usize,
}

impl Disc {
    /// The horizontal and vertical distances of pixel `(x, y)` from the centre, saturated.
    pub open spec fn offsets(self, x: int, y: int) -> (int, int) {
        (sat_sub(x, self.cx), sat_sub(y, self.cy))
    }

    /// Whether pixel `(x, y)` lies within the radius of the centre.
    pub open spec fn covers_pixel(self, x: int, y: int) -> bool {
        let d = self.offsets(x, y);
        d.0 * d.0 + d.1 * d.1 <= radius(self.r) * radius(self.r)
    }

    /// Whether the plain test of pixel `(x, y)` is computed without overflow.
    pub open spec fn pixel_test_ok(self, x: int, y: int) -> bool {
        let d = self.offsets(x, y);
        &&& fits_isize(self.cx)
        &&& fits_isize(self.cy)
        &&& fits_isize(d.0 * d.0)
        &&& fits_isize(d.1 * d.1)
        &&& fits_isize(d.0 * d.0 + d.1 * d.1)
        &&& fits_isize(radius(self.r) * radius(self.r))
    }

    /// Covers the pixels within the radius.
    pub open spec fn plain_covers(self) -> spec_fn(int, int) -> bool {
        |x: int, y: int| self.covers_pixel(x, y)
    }

    /// Sample `o` of `res1 - 1` along one axis of pixel `v`, as twice its
    /// distance from the centre coordinate `c` in units of `1 / res1` of a
    /// pixel: `((v * res1) << 1) + 2 + 2 o - res1 * (c << 1) - 2 res1`, with
    /// the two shifts in `isize`.
    pub open spec fn sample_delta(v: int, o: int, res1: int, c: int) -> int {
        let t = (((v * res1) as isize) << 1u32) as int;
        let c2 = ((c as isize) << 1u32) as int;
        t + 2 + 2 * o - res1 * c2 - 2 * res1
    }

    /// Whether `sample_delta` is computed without overflow.
    pub open spec fn sample_delta_ok(v: int, o: int, res1: int, c: int) -> bool {
        let t = (((v * res1) as isize) << 1u32) as int;
        let c2 = ((c as isize) << 1u32) as int;
        &&& fits_isize(v * res1)
        &&& fits_isize(t + 2)
        &&& fits_isize(t + 2 + 2 * o)
        &&& fits_isize(res1 * c2)
        &&& fits_isize(t + 2 + 2 * o - res1 * c2)
        &&& fits_isize(t + 2 + 2 * o - res1 * c2 - 2 * res1)
    }

    /// The squared radius on the sample scale: `res1 * res1 * ((r * r) << 2) as isize`.
    pub open spec fn sample_limit(self, res1: int) -> int {
        res1 * res1 * ((((self.r * self.r) as usize) << 2u32) as isize) as int
    }

    /// Whether the sample limit is computed without overflow.
    pub open spec fn sample_limit_ok(self, res1: int) -> bool {
        &&& self.r * self.r <= usize::MAX
        &&& fits_isize(res1 * res1 * ((((self.r * self.r) as usize) << 2u32) as isize) as int)
    }

    /// Whether sample `(ox, oy)` of pixel `(x, y)` falls in the disc.
    pub open spec fn sample_hits(self, x: int, y: int, ox: int, oy: int, res1: int) -> bool {
        let dx = Self::sample_delta(x, ox, res1, self.cx);
        let dy = Self::sample_delta(y, oy, res1, self.cy);
        dx * dx + dy * dy <= self.sample_limit(res1)
    }

    /// Whether the test of sample `(ox, oy)` of pixel `(x, y)` is computed without overflow.
    pub open spec fn sample_ok(self, x: int, y: int, ox: int, oy: int, res1: int) -> bool {
        let dx = Self::sample_delta(x, ox, res1, self.cx);
        let dy = Self::sample_delta(y, oy, res1, self.cy);
        &&& fits_isize(self.cx)
        &&& fits_isize(self.cy)
        &&& Self::sample_delta_ok(x, ox, res1, self.cx)
        &&& Self::sample_delta_ok(y, oy, res1, self.cy)
        &&& fits_isize(dx * dx)
        &&& fits_isize(dy * dy)
        &&& fits_isize(dx * dx + dy * dy)
        &&& self.sample_limit_ok(res1)
    }

    /// How many of the samples `0 .. k` of row `oy` of pixel `(x, y)` fall in the disc.
    pub open spec fn hits_in_row(self, x: int, y: int, oy: int, k: int, res1: int) -> nat
        decreases k,
    {
        if k <= 0 {
            0
        } else {
            self.hits_in_row(x, y, oy, k - 1, res1) + if self.sample_hits(x, y, k - 1, oy, res1) {
                1nat
            } else {
                0nat
            }
        }
    }

    /// How many samples of rows `0 .. m` of pixel `(x, y)`, `res` per row, fall in the disc.
    pub open spec fn hits(self, x: int, y: int, m: int, res: int) -> nat
        decreases m,
    {
        if m <= 0 {
            0
        } else {
            self.hits(x, y, m - 1, res) + self.hits_in_row(x, y, m - 1, res, res + 1)
        }
    }

    /// The colour composited over pixel `(x, y)` with `res` by `res`
    /// samples: the colour's red, green and blue with its alpha scaled by
    /// the share of samples in the disc, rounded down.
    pub open spec fn sampled_colour(self, colour: u32, x: int, y: int, res: int) -> u32 {
        let alpha = byte_of(colour, 3) * self.hits(x, y, res, res) / (res * res);
        (colour as int % 0x100_0000 + alpha * 0x100_0000) as u32
    }

    /// Composites the sampled colour at each pixel.
    pub open spec fn sampled_shade(self, colour: u32, res: int) -> spec_fn(int, int, u32) -> u32 {
        |x: int, y: int, old: u32| over(old, self.sampled_colour(colour, x, y, res))
    }

    /// Whether every sample of every pixel of the rectangle is computed without overflow.
    pub open spec fn samples_ok(self, x0: int, x1: int, y0: int, y1: int, res: int) -> bool {
        forall|x: int, y: int, ox: int, oy: int|
            x0 <= x < x1 && y0 <= y < y1 && 0 <= ox < res && 0 <= oy < res ==> #[trigger] self.sample_ok(
                x,
                y,
                ox,
                oy,
                res + 1,
            )
    }

    /// Whether the plain test of every pixel of the rectangle is computed without overflow.
    pub open spec fn pixel_tests_ok(self, x0: int, x1: int, y0: int, y1: int) -> bool {
        forall|x: int, y: int| x0 <= x < x1 && y0 <= y < y1 ==> #[trigger] self.pixel_test_ok(x, y)
    }
}

/// The sample grid of an anti-aliasing setting: `n` capped at 4.
pub open spec fn grid(n: u32) -> int {
    if n < 4 {
        n as int
    } else {
        4
    }
}

impl CanvasView {
    /// The disc of centre `cp` (in view coordinates) and radius `r`, placed in the canvas.
    pub open spec fn disc(&self, cp: (isize, isize), r: usize) -> Disc {
        Disc { cx: cp.0 + self.offset.0, cy: cp.1 + self.offset.1, r }
    }

    /// What `add_circle` covers.
    pub open spec fn disc_covers(&self, cp: (isize, isize), r: usize, aa: AntiAliasing) -> spec_fn(int, int) -> bool {
        match aa {
            AntiAliasing::Disabled => self.disc(cp, r).plain_covers(),
            AntiAliasing::Enabled(_) => everywhere(),
        }
    }

    /// How `add_circle` rewrites the pixels it covers.
    pub open spec fn disc_shade(&self, cp: (isize, isize), r: usize, colour: u32, aa: AntiAliasing) -> spec_fn(int, int, u32) -> u32 {
        match aa {
            AntiAliasing::Disabled => blend_shade(colour),
            AntiAliasing::Enabled(n) => self.disc(cp, r).sampled_shade(colour, grid(n)),
        }
    }

    /// Whether `add_circle` is defined: the bounding square is computed
    /// without overflow and its clipping to the view is defined, and over the clipped
    /// square in canvas coordinates every test is computed without overflow,
    /// the sample grid is not empty, and every covered pixel can be reached.
    pub open spec fn circle_ok(&self, cp: (isize, isize), r: usize, aa: AntiAliasing, len: int) -> bool {
        let corner = disc_corner(cp, r);
        let side = disc_side(r);
        &&& fits_isize(corner.0)
        &&& fits_isize(corner.1)
        &&& fits_isize(side)
        &&& clip_defined(*self, (corner.0 as isize, corner.1 as isize), side, side)
        &&& clipped(*self, (corner.0 as isize, corner.1 as isize), side, side) matches Some(nr) ==> {
            let p = self.placed(nr);
            let d = self.disc(cp, r);
            &&& self.rect_ok(nr, len, self.disc_covers(cp, r, aa))
            &&& match aa {
                AntiAliasing::Disabled => d.pixel_tests_ok(p.0, p.1, p.2, p.3),
                AntiAliasing::Enabled(n) => {
                    &&& p.0 < p.1 && p.2 < p.3 ==> n > 0
                    &&& d.samples_ok(p.0, p.1, p.2, p.3, grid(n))
                },
            }
        }
    }

    /// The canvas after `add_circle`: the disc's bounding square, clipped to
    /// the view, painted with the disc's test and colour, or the canvas as
    /// it was when the square lies wholly outside the view.
    pub open spec fn circle_result(
        &self,
        s: Seq<u32>,
        cp: (isize, isize),
        r: usize,
        colour: u32,
        aa: AntiAliasing,
    ) -> Seq<u32> {
        match clipped(
            *self,
            (disc_corner(cp, r).0 as isize, disc_corner(cp, r).1 as isize),
            disc_side(r),
            disc_side(r),
        ) {
            Some(nr) => self.paint_rect(s, nr, self.disc_covers(cp, r, aa), self.disc_shade(cp, r, colour, aa)),
            None => s,
        }
    }

    /// Composites a disc of centre `cp` (in view coordinates) and radius `r`.
    ///
    /// Over the part of the disc's bounding square that lies in the view
    /// (the square clipped to the view, as `clipped` states): without anti-aliasing, every pixel whose saturated distances from the
    /// centre satisfy `dx² + dy² <= r²` is composited with `colour`; with
    /// anti-aliasing on an `n` by `n` grid (`n` capped at 4), every pixel is
    /// composited with `colour` whose alpha is scaled by the share of the
    /// pixel's samples that fall in the disc.
    pub fn add_circle(&self, canvas: &mut [u32], cp: (isize, isize), r: usize, colour: u32, aa: AntiAliasing)
        requires
            self.dims_fit(),
            self.circle_ok(cp, r, aa, old(canvas)@.len() as int),
        ensures
            final(canvas)@ == self.circle_result(old(canvas)@, cp, r, colour, aa),
    {
        let rad = r as isize;
        let side = (r << 1u32) as isize + 1;
        match clip_rect(self, (cp.0 - rad, cp.1 - rad), side, side) {
            Some(nr) => {
                let y0 = nr.2 + self.offset.1;
                let y1 = nr.3 + self.offset.1;
                if y0 < y1 {
                    let x0 = nr.0 + self.offset.0;
                    let x1 = nr.1 + self.offset.0;
                    match aa {
                        AntiAliasing::Disabled => {
                            disc_area(canvas, self.stride, x0, x1, y0, y1, cp, self.offset, r, colour);
                        },
                        AntiAliasing::Enabled(n) => {
                            let res: u32 = if n < 4 {
                                n
                            } else {
                                4
                            };
                            sampled_disc_area(canvas, self.stride, x0, x1, y0, y1, cp, self.offset, r, colour, res);
                        },
                    }
                }
            },
            None => {},
        }
    }
}

/// Where the clipped bounding square lies inside the stride, a disc drawn
/// without anti-aliasing composites its colour exactly once over each pixel
/// of the square within the radius, and leaves every other pixel as it was.
pub proof fn law_plain_disc_pointwise(
    view: CanvasView,
    s: Seq<u32>,
    nr: (int, int, int, int),
    cp: (isize, isize),
    r: usize,
    colour: u32,
    i: int,
)
    requires
        view.stride > 0,
        0 <= view.placed(nr).0,
        view.placed(nr).1 <= view.stride,
        view.rect_ok(nr, s.len() as int, view.disc(cp, r).plain_covers()),
        0 <= i < s.len(),
    ensures
        ({
            let p = view.placed(nr);
            let (x, y) = (i % view.stride as int, i / view.stride as int);
            view.paint_rect(s, nr, view.disc(cp, r).plain_covers(), blend_shade(colour))[i] == if p.0 <= x
                < p.1 && p.2 <= y < p.3 && view.disc(cp, r).covers_pixel(x, y) {
                over(s[i], colour)
            } else {
                s[i]
            }
        }),
{
    let p = view.placed(nr);
    crate::paint::lemma_paint_area_pointwise(
        s,
        view.stride as int,
        p.0,
        p.1,
        p.2,
        p.3,
        view.disc(cp, r).plain_covers(),
        blend_shade(colour),
        i,
    );
}

/// A disc covers its centre and, when its radius is a value of `isize`,
/// the pixels on its axes up to the radius.
pub proof fn law_disc_covers_centre_and_axes(d: Disc, k: int)
    requires
        fits_isize(d.cx),
        fits_isize(d.cy),
        d.r <= isize::MAX,
        -(d.r as int) <= k <= d.r,
        fits_isize(d.cx + k),
        fits_isize(d.cy + k),
    ensures
        d.covers_pixel(d.cx, d.cy),
        d.covers_pixel(d.cx + k, d.cy),
        d.covers_pixel(d.cx, d.cy + k),
{
    let rad = radius(d.r);
    assert(rad == d.r);
    assert(k * k + 0 * 0 <= rad * rad && 0 * 0 + k * k <= rad * rad && 0 * 0 + 0 * 0 <= rad * rad)
        by (nonlinear_arith)
        requires
            -rad <= k <= rad,
    ;
    assert(d.offsets(d.cx, d.cy) == (0int, 0int));
    assert(d.offsets(d.cx + k, d.cy) == (k, 0int));
    assert(d.offsets(d.cx, d.cy + k) == (0int, k));
}

/// With anti-aliasing, a pixel none of whose samples fall in the disc is
/// left as it was, and one all of whose samples do is composited with the
/// colour itself.
pub proof fn law_sampled_disc_extremes(d: Disc, colour: u32, x: int, y: int, res: int, old: u32)
    requires
        1 <= res <= 4,
    ensures
        d.hits(x, y, res, res) == 0 ==> over(old, d.sampled_colour(colour, x, y, res)) == old,
        d.hits(x, y, res, res) == res * res ==> d.sampled_colour(colour, x, y, res) == colour,
{
    lemma_byte_extract(colour);
    let a = byte_of(colour, 3);
    let h = d.hits(x, y, res, res);
    assert(res * res > 0) by (nonlinear_arith)
        requires
            res >= 1,
    ;
    if h == 0 {
        assert(a * h / (res * res) == 0) by (nonlinear_arith)
            requires
                h == 0,
                res * res > 0,
        ;
        let c = d.sampled_colour(colour, x, y, res);
        assert(c == colour % 0x100_0000);
        assert(byte_of(c, 3) == 0);
        crate::helpers::law_transparent_over(old, c);
    }
    if h == res * res {
        assert(a * h / (res * res) == a) by (nonlinear_arith)
            requires
                h == res * res,
                res * res > 0,
        ;
        assert(colour as int % 0x100_0000 + a * 0x100_0000 == colour) by {
            crate::helpers::lemma_from_bytes_of(colour);
        }
    }
}

/// Anti-aliasing on a grid of 4 or more draws what a grid of 4 draws: the
/// same pixels, the same colours, under the same conditions.
pub proof fn law_grid_caps_at_four(view: CanvasView, cp: (isize, isize), r: usize, colour: u32, n: u32, len: int)
    requires
        n >= 4,
    ensures
        view.disc_covers(cp, r, AntiAliasing::Enabled(n)) == view.disc_covers(cp, r, AntiAliasing::Enabled(4)),
        view.disc_shade(cp, r, colour, AntiAliasing::Enabled(n)) == view.disc_shade(
            cp,
            r,
            colour,
            AntiAliasing::Enabled(4),
        ),
        view.circle_ok(cp, r, AntiAliasing::Enabled(n), len) == view.circle_ok(cp, r, AntiAliasing::Enabled(4), len),
{
    assert(grid(n) == grid(4));
}

/// The bounding square of a disc whose diameter is a value of `isize`
/// starts `r` before the centre and is `2 r + 1` pixels wide.
proof fn lemma_disc_square(cp: (isize, isize), r: usize)
    requires
        2 * r <= isize::MAX,
    ensures
        radius(r) == r,
        disc_side(r) == 2 * r + 1,
        disc_corner(cp, r) == (cp.0 - r, cp.1 - r),
{
    assert(usize::BITS == 64 || usize::BITS == 32);
    if usize::BITS == 64 {
        assert(isize::MAX == 0x7FFF_FFFF_FFFF_FFFF);
        assert(usize::BITS == 64 && r <= 0x3FFF_FFFF_FFFF_FFFF ==> ((r << 1u32) as isize) as int == 2 * r)
            by (bit_vector);
    } else {
        assert(isize::MAX == 0x7FFF_FFFF);
        assert(usize::BITS == 32 && r <= 0x3FFF_FFFF ==> ((r << 1u32) as isize) as int == 2 * r) by (bit_vector);
    }
}

/// A square no greater than another bounds its root.
proof fn lemma_square_bound(a: int, b: int, c: int)
    requires
        b >= 0,
        a * a + c * c <= b * b,
    ensures
        -b <= a <= b,
{
    assert(c * c >= 0) by (nonlinear_arith);
    assert(-b <= a <= b) by (nonlinear_arith)
        requires
            b >= 0,
            a * a <= b * b,
    ;
}

/// An offset whose square is a value of `isize` was not saturated.
proof fn lemma_unsaturated(a: int, b: int)
    requires
        fits_isize(a),
        fits_isize(b),
        fits_isize(sat_sub(a, b) * sat_sub(a, b)),
    ensures
        sat_sub(a, b) == a - b,
{
    let d = sat_sub(a, b);
    if a - b < isize::MIN || a - b > isize::MAX {
        assert(d * d > isize::MAX) by (nonlinear_arith)
            requires
                d == isize::MIN || d == isize::MAX,
                isize::MAX >= 2,
                isize::MIN <= -2,
        ;
    }
}

/// Where the view lies inside the stride, a disc drawn without anti-aliasing
/// composites its colour exactly once over every point `(x, y)` of the view
/// with `(x - cx)² + (y - cy)² <= r²`, and leaves every other pixel as it was.
pub proof fn law_plain_disc_draws_disc(
    view: CanvasView,
    s: Seq<u32>,
    cp: (isize, isize),
    r: usize,
    colour: u32,
    i: int,
)
    requires
        inside_stride(view),
        view.circle_ok(cp, r, AntiAliasing::Disabled, s.len() as int),
        2 * r <= isize::MAX,
        0 <= i < s.len(),
    ensures
        ({
            let x = i % view.stride as int - view.offset.0;
            let y = i / view.stride as int - view.offset.1;
            view.circle_result(s, cp, r, colour, AntiAliasing::Disabled)[i] == if 0 <= x < view.w && 0 <= y
                < view.h && (x - cp.0) * (x - cp.0) + (y - cp.1) * (y - cp.1) <= r * r {
                over(s[i], colour)
            } else {
                s[i]
            }
        }),
{
    lemma_disc_square(cp, r);
    let stride = view.stride as int;
    let x = i % stride - view.offset.0;
    let y = i / stride - view.offset.1;
    crate::paint::lemma_coords_index(i, stride);
    let corner = (disc_corner(cp, r).0 as isize, disc_corner(cp, r).1 as isize);
    let side = disc_side(r);
    let d = view.disc(cp, r);
    let in_disc = 0 <= x < view.w && 0 <= y < view.h && (x - cp.0) * (x - cp.0) + (y - cp.1) * (y - cp.1) <= r
        * r;
    if in_disc {
        lemma_square_bound(x - cp.0, r as int, y - cp.1);
        lemma_square_bound(y - cp.1, r as int, x - cp.0);
    }
    if 0 <= x < view.w && 0 <= y < view.h {
        crate::law_clipped_is_visible_part(view, corner, side, side, x, y);
    }
    match clipped(view, corner, side, side) {
        Some(nr) => {
            crate::lemma_clipped_bounds(view, corner, side, side);
            let p = view.placed(nr);
            crate::paint::lemma_paint_area_pointwise(
                s,
                stride,
                p.0,
                p.1,
                p.2,
                p.3,
                d.plain_covers(),
                blend_shade(colour),
                i,
            );
            let (xx, yy) = (i % stride, i / stride);
            if p.0 <= xx < p.1 && p.2 <= yy < p.3 {
                assert(d.pixel_test_ok(xx, yy));
                lemma_unsaturated(xx, d.cx);
                lemma_unsaturated(yy, d.cy);
                assert(d.offsets(xx, yy) == (x - cp.0, y - cp.1));
            }
        },
        None => {},
    }
}

/// Where the view lies inside the stride, a disc drawn with anti-aliasing
/// on an `n` by `n` grid composites, over every point `(x, y)` of the view
/// within `r` of the centre on each axis, the colour whose alpha is scaled
/// by the share of the point's samples in the disc, and leaves every other
/// pixel as it was.
pub proof fn law_sampled_disc_draws_square(
    view: CanvasView,
    s: Seq<u32>,
    cp: (isize, isize),
    r: usize,
    colour: u32,
    n: u32,
    i: int,
)
    requires
        inside_stride(view),
        view.circle_ok(cp, r, AntiAliasing::Enabled(n), s.len() as int),
        2 * r <= isize::MAX,
        0 <= i < s.len(),
    ensures
        ({
            let x = i % view.stride as int - view.offset.0;
            let y = i / view.stride as int - view.offset.1;
            let d = Disc { cx: cp.0 + view.offset.0, cy: cp.1 + view.offset.1, r };
            view.circle_result(s, cp, r, colour, AntiAliasing::Enabled(n))[i] == if 0 <= x < view.w && 0 <= y
                < view.h && cp.0 - r <= x <= cp.0 + r && cp.1 - r <= y <= cp.1 + r {
                over(s[i], d.sampled_colour(colour, x + view.offset.0, y + view.offset.1, grid(n)))
            } else {
                s[i]
            }
        }),
{
    lemma_disc_square(cp, r);
    let stride = view.stride as int;
    let x = i % stride - view.offset.0;
    let y = i / stride - view.offset.1;
    crate::paint::lemma_coords_index(i, stride);
    let corner = (disc_corner(cp, r).0 as isize, disc_corner(cp, r).1 as isize);
    let side = disc_side(r);
    let d = view.disc(cp, r);
    if 0 <= x < view.w && 0 <= y < view.h {
        crate::law_clipped_is_visible_part(view, corner, side, side, x, y);
    }
    match clipped(view, corner, side, side) {
        Some(nr) => {
            crate::lemma_clipped_bounds(view, corner, side, side);
            let p = view.placed(nr);
            crate::paint::lemma_paint_area_pointwise(
                s,
                stride,
                p.0,
                p.1,
                p.2,
                p.3,
                everywhere(),
                d.sampled_shade(colour, grid(n)),
                i,
            );
        },
        None => {},
    }
}

/// An `isize` value of at most a quarter of the range, shifted left by
/// two bits as a `usize` and read back as an `isize`, is multiplied by 4.
proof fn lemma_quadrupled(v: int)
    requires
        0 <= v,
        4 * v <= isize::MAX,
    ensures
        (((v as usize) << 2u32) as isize) as int == 4 * v,
{
    let u = v as usize;
    assert(u as int == v);
    assert(usize::BITS == 64 || usize::BITS == 32);
    if usize::BITS == 64 {
        assert(isize::MAX == 0x7FFF_FFFF_FFFF_FFFF);
        assert(usize::BITS == 64 && u <= 0x1FFF_FFFF_FFFF_FFFF ==> ((u << 2u32) as isize) as int == 4 * u)
            by (bit_vector);
    } else {
        assert(isize::MAX == 0x7FFF_FFFF);
        assert(usize::BITS == 32 && u <= 0x1FFF_FFFF ==> ((u << 2u32) as isize) as int == 4 * u) by (bit_vector);
    }
}

/// Sample `(ox, oy)` of pixel `(x, y)`, on a grid of `res1 - 1` by
/// `res1 - 1`, stands at `(x - 1 + (ox + 1) / res1, y - 1 + (oy + 1) / res1)`,
/// and falls in the disc exactly when that point lies within the radius of
/// the centre: scaled by `res1`, `(res1 (x - cx - 1) + ox + 1)² +
/// (res1 (y - cy - 1) + oy + 1)² <= (res1 r)²`. This holds wherever the
/// doublings and the squared radius times 4 do not wrap.
pub proof fn law_sample_is_point_in_disc(d: Disc, x: int, y: int, ox: int, oy: int, res1: int)
    requires
        d.sample_ok(x, y, ox, oy, res1),
        isize::MIN / 2 <= x * res1 <= isize::MAX / 2,
        isize::MIN / 2 <= y * res1 <= isize::MAX / 2,
        isize::MIN / 2 <= d.cx <= isize::MAX / 2,
        isize::MIN / 2 <= d.cy <= isize::MAX / 2,
        4 * (d.r * d.r) <= isize::MAX,
    ensures
        d.sample_hits(x, y, ox, oy, res1) <==> {
            let u = res1 * (x - d.cx - 1) + ox + 1;
            let v = res1 * (y - d.cy - 1) + oy + 1;
            u * u + v * v <= (res1 * d.r) * (res1 * d.r)
        },
{
    crate::bresenham::lemma_doubled(x * res1);
    crate::bresenham::lemma_doubled(y * res1);
    crate::bresenham::lemma_doubled(d.cx);
    crate::bresenham::lemma_doubled(d.cy);
    lemma_quadrupled(d.r * d.r);
    let u = res1 * (x - d.cx - 1) + ox + 1;
    let v = res1 * (y - d.cy - 1) + oy + 1;
    let dx = Disc::sample_delta(x, ox, res1, d.cx);
    let dy = Disc::sample_delta(y, oy, res1, d.cy);
    assert(dx == 2 * u) by (nonlinear_arith)
        requires
            dx == 2 * (x * res1) + 2 + 2 * ox - res1 * (2 * d.cx) - 2 * res1,
            u == res1 * (x - d.cx - 1) + ox + 1,
    ;
    assert(dy == 2 * v) by (nonlinear_arith)
        requires
            dy == 2 * (y * res1) + 2 + 2 * oy - res1 * (2 * d.cy) - 2 * res1,
            v == res1 * (y - d.cy - 1) + oy + 1,
    ;
    let rr = d.r * d.r;
    assert(d.sample_limit(res1) == res1 * res1 * (4 * rr));
    assert(dx * dx + dy * dy == 4 * (u * u + v * v)) by (nonlinear_arith)
        requires
            dx == 2 * u,
            dy == 2 * v,
    ;
    assert(res1 * res1 * (4 * rr) == 4 * ((res1 * d.r) * (res1 * d.r))) by (nonlinear_arith)
        requires
            rr == d.r * d.r,
    ;
}

/// `a - b` saturated to the range of `isize`.
fn saturating_sub(a: isize, b: isize) -> (r: isize)
    ensures
        r == sat_sub(a as int, b as int),
{
    if b > 0 {
        if a < isize::MIN + b {
            isize::MIN
        } else {
            a - b
        }
    } else {
        if a > isize::MAX + b {
            isize::MAX
        } else {
            a - b
        }
    }
}

/// Composites `colour` over the pixels of the rectangle that lie in the disc.
fn disc_area(
    canvas: &mut [u32],
    stride: u32,
    x0: isize,
    x1: isize,
    y0: isize,
    y1: isize,
    cp: (isize, isize),
    off: (isize, isize),
    r: usize,
    colour: u32,
)
    requires
        ({
            let d = Disc { cx: cp.0 + off.0, cy: cp.1 + off.1, r };
            &&& d.pixel_tests_ok(x0 as int, x1 as int, y0 as int, y1 as int)
            &&& area_ok(
                old(canvas)@.len() as int,
                stride as int,
                x0 as int,
                x1 as int,
                y0 as int,
                y1 as int,
                d.plain_covers(),
            )
        }),
    ensures
        final(canvas)@ == paint_area(
            old(canvas)@,
            stride as int,
            x0 as int,
            x1 as int,
            y0 as int,
            y1 as int,
            Disc { cx: cp.0 + off.0, cy: cp.1 + off.1, r }.plain_covers(),
            blend_shade(colour),
        ),
{
    let ghost d = Disc { cx: cp.0 + off.0, cy: cp.1 + off.1, r };
    let ghost start = canvas@;
    let ghost len = canvas@.len() as int;
    let mut y = y0;
    while y < y1
        invariant
            y0 <= y,
            y <= y1 || y == y0,
            len == start.len(),
            d == (Disc { cx: cp.0 + off.0, cy: cp.1 + off.1, r }),
            d.pixel_tests_ok(x0 as int, x1 as int, y0 as int, y1 as int),
            area_ok(len, stride as int, x0 as int, x1 as int, y0 as int, y1 as int, d.plain_covers()),
            canvas@ == paint_area(
                start,
                stride as int,
                x0 as int,
                x1 as int,
                y0 as int,
                y as int,
                d.plain_covers(),
                blend_shade(colour),
            ),
        decreases y1 - y,
    {
        proof {
            lemma_paint_area_len(start, stride as int, x0 as int, x1 as int, y0 as int, y as int, d.plain_covers(), blend_shade(colour));
        }
        let ghost row_start = canvas@;
        let mut x = x0;
        while x < x1
            invariant
                x0 <= x,
                x <= x1 || x == x0,
                y0 <= y < y1,
                row_start.len() == len,
                d == (Disc { cx: cp.0 + off.0, cy: cp.1 + off.1, r }),
                d.pixel_tests_ok(x0 as int, x1 as int, y0 as int, y1 as int),
                area_ok(len, stride as int, x0 as int, x1 as int, y0 as int, y1 as int, d.plain_covers()),
                canvas@ == paint_span(
                    row_start,
                    stride as int,
                    y as int,
                    x0 as int,
                    x as int,
                    d.plain_covers(),
                    blend_shade(colour),
                ),
            decreases x1 - x,
        {
            proof {
                lemma_paint_span_len(row_start, stride as int, y as int, x0 as int, x as int, d.plain_covers(), blend_shade(colour));
                assert(d.pixel_test_ok(x as int, y as int));
            }
            let dx = saturating_sub(x, cp.0 + off.0);
            let dy = saturating_sub(y, cp.1 + off.1);
            let rad = r as isize;
            if dx * dx + dy * dy <= rad * rad {
                proof {
                    assert(d.plain_covers()(x as int, y as int));
                }
                let i = pixel_offset(x, y, stride, canvas.len());
                let mut px = canvas[i];
                apply_argb(&mut px, colour);
                canvas[i] = px;
            }
            x += 1;
        }
        y += 1;
    }
}

proof fn lemma_small_shifts(o: isize)
    requires
        0 <= o <= 5,
    ensures
        (o << 1u32) == 2 * o,
{
    assert(0 <= o <= 5 ==> (o << 1u32) == 2 * o) by (bit_vector);
}

/// The alpha that the samples of pixel `(x, y)` add up to: the colour's
/// alpha once for each sample in the disc.
fn sample_pixel(
    x: isize,
    y: isize,
    cp: (isize, isize),
    off: (isize, isize),
    r: usize,
    res: u32,
    maxa: u32,
) -> (ca: u32)
    requires
        1 <= res <= 4,
        maxa < 256,
        forall|ox: int, oy: int|
            0 <= ox < res && 0 <= oy < res ==> #[trigger] (Disc {
                cx: cp.0 + off.0,
                cy: cp.1 + off.1,
                r,
            }).sample_ok(x as int, y as int, ox, oy, res + 1),
    ensures
        ca == maxa * (Disc { cx: cp.0 + off.0, cy: cp.1 + off.1, r }).hits(
            x as int,
            y as int,
            res as int,
            res as int,
        ),
        ca <= maxa * (res * res),
{
    let ghost d = Disc { cx: cp.0 + off.0, cy: cp.1 + off.1, r };
    let res1 = (res + 1) as isize;
    let n = res as isize;
    let mut ca: u32 = 0;
    let mut oy: isize = 0;
    while oy < n
        invariant
            1 <= res <= 4,
            n == res,
            res1 == res + 1,
            maxa < 256,
            0 <= oy <= n,
            d == (Disc { cx: cp.0 + off.0, cy: cp.1 + off.1, r }),
            forall|ox: int, oy: int|
                0 <= ox < res && 0 <= oy < res ==> #[trigger] d.sample_ok(x as int, y as int, ox, oy, res + 1),
            d.hits(x as int, y as int, oy as int, res as int) <= oy * res,
            ca == maxa * d.hits(x as int, y as int, oy as int, res as int),
        decreases n - oy,
    {
        let ghost row_base = d.hits(x as int, y as int, oy as int, res as int);
        let mut ox: isize = 0;
        while ox < n
            invariant
                1 <= res <= 4,
                n == res,
                res1 == res + 1,
                maxa < 256,
                0 <= ox <= n,
                0 <= oy < n,
                d == (Disc { cx: cp.0 + off.0, cy: cp.1 + off.1, r }),
                forall|ox: int, oy: int|
                    0 <= ox < res && 0 <= oy < res ==> #[trigger] d.sample_ok(x as int, y as int, ox, oy, res + 1),
                row_base <= oy * res,
                d.hits_in_row(x as int, y as int, oy as int, ox as int, res + 1) <= ox,
                ca == maxa * (row_base + d.hits_in_row(x as int, y as int, oy as int, ox as int, res + 1)),
            decreases n - ox,
        {
            proof {
                assert(d.sample_ok(x as int, y as int, ox as int, oy as int, res + 1));
                lemma_small_shifts(ox);
                lemma_small_shifts(oy);
                lemma_small_shifts(res1);
            }
            let dx = ((((x * res1) << 1u32) + 2 + (ox << 1u32) - res1 * ((cp.0 + off.0) << 1u32)) - (res1
                << 1u32));
            let dy = ((((y * res1) << 1u32) + 2 + (oy << 1u32) - res1 * ((cp.1 + off.1) << 1u32)) - (res1
                << 1u32));
            let ghost h = d.hits_in_row(x as int, y as int, oy as int, ox as int, res + 1);
            assert(res1 * res1 <= 25) by (nonlinear_arith)
                requires
                    1 <= res1 <= 5,
            ;
            if dx * dx + dy * dy <= (res1 * res1 * ((r * r) << 2u32) as isize) {
                proof {
                    assert(d.sample_hits(x as int, y as int, ox as int, oy as int, res + 1));
                    assert(maxa * (row_base + h) + maxa == maxa * (row_base + h + 1)) by (nonlinear_arith);
                    assert(maxa * (row_base + h + 1) <= 255 * 16) by (nonlinear_arith)
                        requires
                            maxa < 256,
                            row_base <= oy * res,
                            h <= ox,
                            0 <= oy < res,
                            0 <= ox < res,
                            res <= 4,
                    ;
                }
                ca = ca + maxa;
            }
            ox += 1;
        }
        proof {
            assert(d.hits_in_row(x as int, y as int, oy as int, res as int, res + 1) <= res);
            assert(row_base + d.hits_in_row(x as int, y as int, oy as int, res as int, res + 1) <= (oy + 1) * res)
                by (nonlinear_arith)
                requires
                    row_base <= oy * res,
                    d.hits_in_row(x as int, y as int, oy as int, res as int, res + 1) <= res,
            ;
        }
        oy += 1;
    }
    proof {
        assert(maxa * d.hits(x as int, y as int, res as int, res as int) <= maxa * (res * res))
            by (nonlinear_arith)
            requires
                d.hits(x as int, y as int, res as int, res as int) <= res * res,
                maxa >= 0,
        ;
    }
    ca
}

/// Composites over every pixel of the rectangle the colour with its alpha
/// scaled by the share of the pixel's `res` by `res` samples in the disc.
fn sampled_disc_area(
    canvas: &mut [u32],
    stride: u32,
    x0: isize,
    x1: isize,
    y0: isize,
    y1: isize,
    cp: (isize, isize),
    off: (isize, isize),
    r: usize,
    colour: u32,
    res: u32,
)
    requires
        res <= 4,
        x0 < x1 && y0 < y1 ==> res > 0,
        ({
            let d = Disc { cx: cp.0 + off.0, cy: cp.1 + off.1, r };
            &&& d.samples_ok(x0 as int, x1 as int, y0 as int, y1 as int, res as int)
            &&& area_ok(
                old(canvas)@.len() as int,
                stride as int,
                x0 as int,
                x1 as int,
                y0 as int,
                y1 as int,
                everywhere(),
            )
        }),
    ensures
        final(canvas)@ == paint_area(
            old(canvas)@,
            stride as int,
            x0 as int,
            x1 as int,
            y0 as int,
            y1 as int,
            everywhere(),
            Disc { cx: cp.0 + off.0, cy: cp.1 + off.1, r }.sampled_shade(colour, res as int),
        ),
{
    let ghost d = Disc { cx: cp.0 + off.0, cy: cp.1 + off.1, r };
    let ghost shade = d.sampled_shade(colour, res as int);
    let ghost start = canvas@;
    let ghost len = canvas@.len() as int;
    let maxa = (colour & 0xFF000000) >> 24;
    proof {
        lemma_byte_extract(colour);
        assert((colour & 0xFF000000u32) >> 24u32 == colour >> 24u32) by (bit_vector);
    }
    let mut y = y0;
    while y < y1
        invariant
            y0 <= y,
            y <= y1 || y == y0,
            res <= 4,
            x0 < x1 && y0 < y1 ==> res > 0,
            maxa == byte_of(colour, 3),
            len == start.len(),
            d == (Disc { cx: cp.0 + off.0, cy: cp.1 + off.1, r }),
            shade == d.sampled_shade(colour, res as int),
            d.samples_ok(x0 as int, x1 as int, y0 as int, y1 as int, res as int),
            area_ok(len, stride as int, x0 as int, x1 as int, y0 as int, y1 as int, everywhere()),
            canvas@ == paint_area(start, stride as int, x0 as int, x1 as int, y0 as int, y as int, everywhere(), shade),
        decreases y1 - y,
    {
        proof {
            lemma_paint_area_len(start, stride as int, x0 as int, x1 as int, y0 as int, y as int, everywhere(), shade);
        }
        let ghost row_start = canvas@;
        let mut x = x0;
        while x < x1
            invariant
                x0 <= x,
                x <= x1 || x == x0,
                y0 <= y < y1,
                res <= 4,
                x0 < x1 && y0 < y1 ==> res > 0,
                maxa == byte_of(colour, 3),
                row_start.len() == len,
                d == (Disc { cx: cp.0 + off.0, cy: cp.1 + off.1, r }),
                shade == d.sampled_shade(colour, res as int),
                d.samples_ok(x0 as int, x1 as int, y0 as int, y1 as int, res as int),
                area_ok(len, stride as int, x0 as int, x1 as int, y0 as int, y1 as int, everywhere()),
                canvas@ == paint_span(row_start, stride as int, y as int, x0 as int, x as int, everywhere(), shade),
            decreases x1 - x,
        {
            proof {
                lemma_paint_span_len(row_start, stride as int, y as int, x0 as int, x as int, everywhere(), shade);
                assert(everywhere()(x as int, y as int));
                assert forall|ox: int, oy: int| 0 <= ox < res && 0 <= oy < res implies #[trigger] d.sample_ok(
                    x as int,
                    y as int,
                    ox,
                    oy,
                    res + 1,
                ) by {
                    assert(d.sample_ok(x as int, y as int, ox, oy, res as int + 1));
                }
            }
            let ca = sample_pixel(x, y, cp, off, r, res, maxa);
            assert(0 < res * res <= 16) by (nonlinear_arith)
                requires
                    0 < res <= 4,
            ;
            let sq = res * res;
            let k = ca / sq;
            proof {
                assert(k <= maxa) by (nonlinear_arith)
                    requires
                        ca <= maxa * sq,
                        sq > 0,
                        k == ca / sq,
                ;
            }
            let c = (colour & 0x00FFFFFF) | (k << 24u32);
            proof {
                assert((colour & 0x00FFFFFFu32) | (k << 24u32) == colour % 0x100_0000u32 + k * 0x100_0000u32)
                    by (bit_vector)
                    requires
                        k < 256,
                ;
                assert(c == d.sampled_colour(colour, x as int, y as int, res as int));
            }
            let i = pixel_offset(x, y, stride, canvas.len());
            let mut px = canvas[i];
            apply_argb(&mut px, c);
            canvas[i] = px;
            x += 1;
        }
        y += 1;
    }
}

} // verus!
