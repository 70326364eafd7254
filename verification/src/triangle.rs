//! Triangles: the barycentric test and weights of a pixel, and filling a
//! triangle with one colour or with three blended corner colours.
use vstd::prelude::*;
use crate::{CanvasView, Colour, fits_isize, normalise_defined, normalise_rect, normalised};
use crate::helpers::{apply_argb, blend, blend_colours, blend_fits, over, weighted_byte, byte_of};
use crate::paint::{area_ok, paint_area, paint_span, pixel_ok, lemma_paint_area_len, lemma_paint_span_len};

verus! {

/// The sign of `v`: 1, -1 or 0.
pub open spec fn sign(v: int) -> int {
    if v > 0 {
        1
    } else if v < 0 {
        -1
    } else {
        0
    }
}

pub open spec fn abs(v: int) -> int {
    if v < 0 {
        -v
    } else {
        v
    }
}

/// Twice the signed area of the triangle `a`, `b`, `c`.
pub open spec fn det(a: (int, int), b: (int, int), c: (int, int)) -> int {
    (a.0 - c.0) * (b.1 - c.1) - (b.0 - c.0) * (a.1 - c.1)
}

/// The unnormalised weight of corner `a` at `p`: twice the signed area of `p`, `b`, `c`.
pub open spec fn weight_a(b: (int, int), c: (int, int), p: (int, int)) -> int {
    (b.1 - c.1) * (p.0 - c.0) + (c.0 - b.0) * (p.1 - c.1)
}

/// The unnormalised weight of corner `b` at `p`: twice the signed area of `a`, `p`, `c`.
pub open spec fn weight_b(a: (int, int), c: (int, int), p: (int, int)) -> int {
    (c.1 - a.1) * (p.0 - c.0) + (a.0 - c.0) * (p.1 - c.1)
}

/// The unnormalised weight of corner `c` at `p`: what the other two leave of the whole.
pub open spec fn weight_c(a: (int, int), b: (int, int), c: (int, int), p: (int, int)) -> int {
    det(a, b, c) - weight_a(b, c, p) - weight_b(a, c, p)
}

/// Whether `p` lies in the closed triangle: no weight has the sign opposite
/// to the triangle's orientation.
pub open spec fn inside(a: (int, int), b: (int, int), c: (int, int), p: (int, int)) -> bool {
    let d = sign(det(a, b, c));
    &&& (sign(weight_a(b, c, p)) == d || weight_a(b, c, p) == 0)
    &&& (sign(weight_b(a, c, p)) == d || weight_b(a, c, p) == 0)
    &&& (sign(weight_c(a, b, c, p)) == d || weight_c(a, b, c, p) == 0)
}

/// The barycentric weights of `p`, each scaled to 255 and rounded down;
/// `None` where `p` lies outside the triangle.
pub open spec fn barycentric_weights(a: (int, int), b: (int, int), c: (int, int), p: (int, int)) -> Option<(int, int, int)> {
    if inside(a, b, c, p) {
        let w1 = abs(weight_a(b, c, p));
        let w2 = abs(weight_b(a, c, p));
        let w3 = abs(weight_c(a, b, c, p));
        let total = w1 + w2 + w3;
        Some((w1 * 255 / total, w2 * 255 / total, w3 * 255 / total))
    } else {
        None
    }
}

/// Whether `barycentric` computes its result for these points without
/// overflow or division by zero: every difference, product and sum it forms
/// is a value of `isize`, and for a point inside, the triangle is not
/// degenerate (a degenerate triangle has no point strictly on one side of it).
pub open spec fn barycentric_defined(a: (int, int), b: (int, int), c: (int, int), p: (int, int)) -> bool {
    let w1 = weight_a(b, c, p);
    let w2 = weight_b(a, c, p);
    let w3 = weight_c(a, b, c, p);
    &&& fits_isize(a.0 - c.0)
    &&& fits_isize(b.1 - c.1)
    &&& fits_isize((a.0 - c.0) * (b.1 - c.1))
    &&& fits_isize(b.0 - c.0)
    &&& fits_isize(a.1 - c.1)
    &&& fits_isize((b.0 - c.0) * (a.1 - c.1))
    &&& fits_isize(det(a, b, c))
    &&& fits_isize(p.0 - c.0)
    &&& fits_isize((b.1 - c.1) * (p.0 - c.0))
    &&& fits_isize(c.0 - b.0)
    &&& fits_isize(p.1 - c.1)
    &&& fits_isize((c.0 - b.0) * (p.1 - c.1))
    &&& fits_isize(w1)
    &&& fits_isize(c.1 - a.1)
    &&& fits_isize((c.1 - a.1) * (p.0 - c.0))
    &&& fits_isize((a.0 - c.0) * (p.1 - c.1))
    &&& fits_isize(w2)
    &&& fits_isize(det(a, b, c) - w1)
    &&& fits_isize(w3)
    &&& inside(a, b, c, p) ==> {
        &&& det(a, b, c) != 0
        &&& fits_isize(abs(w1))
        &&& fits_isize(abs(w2))
        &&& fits_isize(abs(w3))
        &&& fits_isize(abs(w1) + abs(w2))
        &&& fits_isize(abs(w1) + abs(w2) + abs(w3))
        &&& fits_isize(abs(w1) * 255)
        &&& fits_isize(abs(w2) * 255)
        &&& fits_isize(abs(w3) * 255)
    }
}

pub open spec fn weights_view(r: Option<(isize, isize, isize)>) -> Option<(int, int, int)> {
    match r {
        Some(t) => Some((t.0 as int, t.1 as int, t.2 as int)),
        None => None,
    }
}

pub open spec fn pt(p: (isize, isize)) -> (int, int) {
    (p.0 as int, p.1 as int)
}

fn signum(v: isize) -> (r: isize)
    ensures
        r == sign(v as int),
{
    if v > 0 {
        1
    } else if v < 0 {
        -1
    } else {
        0
    }
}

fn abs_isize(v: isize) -> (r: isize)
    requires
        fits_isize(abs(v as int)),
    ensures
        r == abs(v as int),
{
    if v < 0 {
        -v
    } else {
        v
    }
}

/// Inside the triangle, the three absolute weights add up to the absolute
/// orientation, so the scaled weights lie in `0 ..= 255` and add up to at
/// most 255.
pub proof fn lemma_weights_bounded(a: (int, int), b: (int, int), c: (int, int), p: (int, int))
    requires
        inside(a, b, c, p),
        det(a, b, c) != 0,
    ensures
        abs(weight_a(b, c, p)) + abs(weight_b(a, c, p)) + abs(weight_c(a, b, c, p)) == abs(det(a, b, c)),
        barycentric_weights(a, b, c, p) matches Some(w) ==> {
            &&& 0 <= w.0 <= 255
            &&& 0 <= w.1 <= 255
            &&& 0 <= w.2 <= 255
            &&& w.0 + w.1 + w.2 <= 255
        },
{
    let w1 = abs(weight_a(b, c, p));
    let w2 = abs(weight_b(a, c, p));
    let w3 = abs(weight_c(a, b, c, p));
    let t = w1 + w2 + w3;
    assert(t == abs(det(a, b, c)));
    assert(t > 0);
    assert(w1 * 255 / t + w2 * 255 / t + w3 * 255 / t <= 255 && w1 * 255 / t <= 255 && w2 * 255 / t
        <= 255 && w3 * 255 / t <= 255 && 0 <= w1 * 255 / t && 0 <= w2 * 255 / t && 0 <= w3 * 255 / t)
        by (nonlinear_arith)
        requires
            t > 0,
            w1 >= 0,
            w2 >= 0,
            w3 >= 0,
            t == w1 + w2 + w3,
    {
        vstd::arithmetic::div_mod::lemma_fundamental_div_mod(w1 * 255, t);
        vstd::arithmetic::div_mod::lemma_fundamental_div_mod(w2 * 255, t);
        vstd::arithmetic::div_mod::lemma_fundamental_div_mod(w3 * 255, t);
    }
}

/// Where they are defined, the barycentric weights each lie in `0 ..= 255`
/// and add up to at most 255.
pub proof fn law_weights_bounded(a: (int, int), b: (int, int), c: (int, int), p: (int, int))
    requires
        barycentric_defined(a, b, c, p),
    ensures
        barycentric_weights(a, b, c, p) matches Some(w) ==> {
            &&& 0 <= w.0 <= 255
            &&& 0 <= w.1 <= 255
            &&& 0 <= w.2 <= 255
            &&& w.0 + w.1 + w.2 <= 255
        },
{
    if inside(a, b, c, p) {
        lemma_weights_bounded(a, b, c, p);
    }
}

/// In a triangle that is not degenerate, each corner takes all the weight
/// at itself: 255 for the corner and 0 for the others.
pub proof fn law_weights_at_corners(a: (int, int), b: (int, int), c: (int, int))
    requires
        det(a, b, c) != 0,
    ensures
        barycentric_weights(a, b, c, a) == Some((255int, 0int, 0int)),
        barycentric_weights(a, b, c, b) == Some((0int, 255int, 0int)),
        barycentric_weights(a, b, c, c) == Some((0int, 0int, 255int)),
{
    let d = det(a, b, c);
    assert((b.1 - c.1) * (a.0 - c.0) + (c.0 - b.0) * (a.1 - c.1) == (a.0 - c.0) * (b.1 - c.1) - (b.0
        - c.0) * (a.1 - c.1)) by (nonlinear_arith);
    assert(weight_b(a, c, a) == 0) by (nonlinear_arith);
    assert(weight_a(b, c, b) == 0) by (nonlinear_arith);
    assert((c.1 - a.1) * (b.0 - c.0) + (a.0 - c.0) * (b.1 - c.1) == (a.0 - c.0) * (b.1 - c.1) - (b.0
        - c.0) * (a.1 - c.1)) by (nonlinear_arith);
    assert(weight_a(b, c, c) == 0) by (nonlinear_arith);
    assert(weight_b(a, c, c) == 0) by (nonlinear_arith);
    assert(abs(d) * 255 / abs(d) == 255) by (nonlinear_arith)
        requires
            abs(d) > 0,
    ;
}

/// The barycentric weights of `p` in the triangle `a`, `b`, `c`.
///
/// `p` is inside (or on an edge of) the triangle when none of the signed
/// sub-areas opposite the corners has the sign opposite to the triangle's
/// orientation; then the result holds the absolute sub-areas, each scaled
/// to 255 over their sum and rounded down. Otherwise `None`.
pub fn barycentric(
    a: (isize, isize),
    b: (isize, isize),
    c: (isize, isize),
    p: (isize, isize),
) -> (r: Option<(isize, isize, isize)>)
    requires
        barycentric_defined(pt(a), pt(b), pt(c), pt(p)),
    ensures
        weights_view(r) == barycentric_weights(pt(a), pt(b), pt(c), pt(p)),
{
    let det = ((a.0 - c.0) * (b.1 - c.1) - (b.0 - c.0) * (a.1 - c.1));
    let wgt1 = ((b.1 - c.1) * (p.0 - c.0) + (c.0 - b.0) * (p.1 - c.1));
    let wgt2 = ((c.1 - a.1) * (p.0 - c.0) + (a.0 - c.0) * (p.1 - c.1));
    let wgt3 = det - wgt1 - wgt2;
    let sd = signum(det);
    let s1 = signum(wgt1);
    let s2 = signum(wgt2);
    let s3 = signum(wgt3);
    if (s1 == sd || s1 == 0) && (s2 == sd || s2 == 0) && (s3 == sd || s3 == 0) {
        let a1 = abs_isize(wgt1);
        let a2 = abs_isize(wgt2);
        let a3 = abs_isize(wgt3);
        let total_weight = a1 + a2 + a3;
        proof {
            lemma_weights_bounded(pt(a), pt(b), pt(c), pt(p));
        }
        let wgt1 = a1 * 255 / total_weight;
        let wgt2 = a2 * 255 / total_weight;
        let wgt3 = a3 * 255 / total_weight;
        Some((wgt1, wgt2, wgt3))
    } else {
        None
    }
}

/// A point moved by an offset.
pub open spec fn shift(p: (isize, isize), off: (isize, isize)) -> (int, int) {
    (p.0 + off.0, p.1 + off.1)
}

/// Covers the pixels inside the triangle.
pub open spec fn tri_covers(a: (int, int), b: (int, int), c: (int, int)) -> spec_fn(int, int) -> bool {
    |x: int, y: int| barycentric_weights(a, b, c, (x, y)) is Some
}

/// The colour that a triangle fill composites over pixel `(x, y)` (with
/// three corner colours, 0 outside the triangle, where nothing is drawn).
pub open spec fn tri_colour(colour: Colour, a: (int, int), b: (int, int), c: (int, int), x: int, y: int) -> u32 {
    match colour {
        Colour::Single(k) => k,
        Colour::Triplet(k1, k2, k3) => match barycentric_weights(a, b, c, (x, y)) {
            Some(w) => blend(k1, k2, k3, w.0 as u32, w.1 as u32, w.2 as u32),
            None => 0,
        },
    }
}

/// Composites the triangle's colour at each pixel.
pub open spec fn tri_shade(colour: Colour, a: (int, int), b: (int, int), c: (int, int)) -> spec_fn(int, int, u32) -> u32 {
    |x: int, y: int, old: u32| over(old, tri_colour(colour, a, b, c, x, y))
}

/// The corner of the triangle's bounding box with the least coordinates.
pub open spec fn tri_min(a: (isize, isize), b: (isize, isize), c: (isize, isize)) -> (isize, isize) {
    (
        if a.0 <= b.0 && a.0 <= c.0 { a.0 } else if b.0 <= c.0 { b.0 } else { c.0 },
        if a.1 <= b.1 && a.1 <= c.1 { a.1 } else if b.1 <= c.1 { b.1 } else { c.1 },
    )
}

/// The corner of the triangle's bounding box with the greatest coordinates.
pub open spec fn tri_max(a: (isize, isize), b: (isize, isize), c: (isize, isize)) -> (int, int) {
    (
        if a.0 >= b.0 && a.0 >= c.0 { a.0 as int } else if b.0 >= c.0 { b.0 as int } else { c.0 as int },
        if a.1 >= b.1 && a.1 >= c.1 { a.1 as int } else if b.1 >= c.1 { b.1 as int } else { c.1 as int },
    )
}

/// The bounding box's width and height in pixels.
pub open spec fn tri_size(a: (isize, isize), b: (isize, isize), c: (isize, isize)) -> (int, int) {
    let lo = tri_min(a, b, c);
    let hi = tri_max(a, b, c);
    (hi.0 - (lo.0 - 1), hi.1 - (lo.1 - 1))
}

/// Whether every pixel of the rectangle has a barycentric test that is defined.
pub open spec fn tri_tests_defined(
    a: (int, int),
    b: (int, int),
    c: (int, int),
    x0: int,
    x1: int,
    y0: int,
    y1: int,
) -> bool {
    forall|x: int, y: int|
        x0 <= x < x1 && y0 <= y < y1 ==> #[trigger] barycentric_defined(a, b, c, (x, y))
}

fn min3(a: isize, b: isize, c: isize) -> (r: isize)
    ensures
        r == (if a <= b && a <= c { a } else if b <= c { b } else { c }),
{
    if a <= b && a <= c {
        a
    } else if b <= c {
        b
    } else {
        c
    }
}

fn max3(a: isize, b: isize, c: isize) -> (r: isize)
    ensures
        r == (if a >= b && a >= c { a } else if b >= c { b } else { c }),
{
    if a >= b && a >= c {
        a
    } else if b >= c {
        b
    } else {
        c
    }
}

impl CanvasView {
    /// Whether `add_triangle` is defined on these corners: the bounding box's
    /// size is computed without overflow, its clipping is defined, and over
    /// the clipped box in canvas coordinates the corners moved by the offset
    /// and every pixel's barycentric test are computed without overflow,
    /// and every pixel inside the triangle can be reached.
    pub open spec fn triangle_ok(&self, a: (isize, isize), b: (isize, isize), c: (isize, isize), len: int) -> bool {
        let lo = tri_min(a, b, c);
        let hi = tri_max(a, b, c);
        let size = tri_size(a, b, c);
        &&& fits_isize(lo.0 - 1)
        &&& fits_isize(lo.1 - 1)
        &&& fits_isize(size.0)
        &&& fits_isize(size.1)
        &&& normalise_defined(*self, lo, size.0, size.1)
        &&& normalised(*self, lo, size.0, size.1) matches Some(nr) ==> {
            let p = self.placed(nr);
            let (sa, sb, sc) = (shift(a, self.offset), shift(b, self.offset), shift(c, self.offset));
            &&& self.rect_ok(nr, len, tri_covers(sa, sb, sc))
            &&& p.0 < p.1 && p.2 < p.3 ==> {
                &&& fits_isize(sa.0) && fits_isize(sa.1)
                &&& fits_isize(sb.0) && fits_isize(sb.1)
                &&& fits_isize(sc.0) && fits_isize(sc.1)
            }
            &&& tri_tests_defined(sa, sb, sc, p.0, p.1, p.2, p.3)
        }
    }

    /// The canvas after `add_triangle`: the clipped bounding box painted
    /// with the triangle's test and colour, or the canvas as it was when
    /// the box misses the view.
    pub open spec fn triangle_result(
        &self,
        s: Seq<u32>,
        a: (isize, isize),
        b: (isize, isize),
        c: (isize, isize),
        colour: Colour,
    ) -> Seq<u32> {
        match normalised(*self, tri_min(a, b, c), tri_size(a, b, c).0, tri_size(a, b, c).1) {
            Some(nr) => self.paint_rect(
                s,
                nr,
                tri_covers(shift(a, self.offset), shift(b, self.offset), shift(c, self.offset)),
                tri_shade(colour, shift(a, self.offset), shift(b, self.offset), shift(c, self.offset)),
            ),
            None => s,
        }
    }

    /// Composites a triangle with corners `a`, `b`, `c` (in view coordinates).
    ///
    /// Every pixel of the triangle's bounding box, clipped as
    /// `normalise_rect` does, whose barycentric test succeeds is composited
    /// with the single colour, or with the three corner colours blended by
    /// the pixel's barycentric weights.
    pub fn add_triangle(
        &self,
        canvas: &mut [u32],
        a: (isize, isize),
        b: (isize, isize),
        c: (isize, isize),
        colour: Colour,
    )
        requires
            self.dims_fit(),
            self.triangle_ok(a, b, c, old(canvas)@.len() as int),
        ensures
            final(canvas)@ == self.triangle_result(old(canvas)@, a, b, c, colour),
    {
        let corner1: (isize, isize) = (min3(a.0, b.0, c.0), min3(a.1, b.1, c.1));
        let corner2: (isize, isize) = (max3(a.0, b.0, c.0), max3(a.1, b.1, c.1));
        let (w, h) = (corner2.0 - (corner1.0 - 1), corner2.1 - (corner1.1 - 1));
        match normalise_rect(self, corner1, w, h) {
            Some(nr) => {
                let y0 = nr.2 + self.offset.1;
                let y1 = nr.3 + self.offset.1;
                if y0 < y1 {
                    let x0 = nr.0 + self.offset.0;
                    let x1 = nr.1 + self.offset.0;
                    triangle_area(canvas, self.stride, x0, x1, y0, y1, a, b, c, self.offset, &colour);
                }
            },
            None => {},
        }
    }
}

/// Where the clipped bounding box lies inside the stride, a triangle is
/// composited exactly once over each pixel of the box inside the triangle,
/// with the triangle's colour at that pixel, and every other pixel is left
/// as it was.
pub proof fn law_triangle_pointwise(
    view: CanvasView,
    s: Seq<u32>,
    nr: (int, int, int, int),
    a: (isize, isize),
    b: (isize, isize),
    c: (isize, isize),
    colour: Colour,
    i: int,
)
    requires
        view.stride > 0,
        0 <= view.placed(nr).0,
        view.placed(nr).1 <= view.stride,
        view.rect_ok(
            nr,
            s.len() as int,
            tri_covers(shift(a, view.offset), shift(b, view.offset), shift(c, view.offset)),
        ),
        0 <= i < s.len(),
    ensures
        ({
            let (sa, sb, sc) = (shift(a, view.offset), shift(b, view.offset), shift(c, view.offset));
            let p = view.placed(nr);
            let (x, y) = (i % view.stride as int, i / view.stride as int);
            view.paint_rect(s, nr, tri_covers(sa, sb, sc), tri_shade(colour, sa, sb, sc))[i] == if p.0 <= x
                < p.1 && p.2 <= y < p.3 && barycentric_weights(sa, sb, sc, (x, y)) is Some {
                over(s[i], tri_colour(colour, sa, sb, sc, x, y))
            } else {
                s[i]
            }
        }),
{
    let (sa, sb, sc) = (shift(a, view.offset), shift(b, view.offset), shift(c, view.offset));
    let p = view.placed(nr);
    crate::paint::lemma_paint_area_pointwise(
        s,
        view.stride as int,
        p.0,
        p.1,
        p.2,
        p.3,
        tri_covers(sa, sb, sc),
        tri_shade(colour, sa, sb, sc),
        i,
    );
}

/// Swapping the first two corners turns the triangle over: its orientation
/// and every sub-area change sign, and the weights of the two corners trade places.
proof fn lemma_swap_first(a: (int, int), b: (int, int), c: (int, int), p: (int, int))
    ensures
        det(b, a, c) == -det(a, b, c),
        weight_a(a, c, p) == -weight_b(a, c, p),
        weight_b(b, c, p) == -weight_a(b, c, p),
        weight_c(b, a, c, p) == -weight_c(a, b, c, p),
        inside(b, a, c, p) == inside(a, b, c, p),
        barycentric_weights(b, a, c, p) == match barycentric_weights(a, b, c, p) {
            Some(w) => Some((w.1, w.0, w.2)),
            None => None,
        },
{
    let (a0, a1, b0, b1, c0, c1, p0, p1) = (a.0, a.1, b.0, b.1, c.0, c.1, p.0, p.1);
    assert((a1 - c1) * (p0 - c0) + (c0 - a0) * (p1 - c1) == -((c1 - a1) * (p0 - c0) + (a0 - c0) * (p1
        - c1))) by (nonlinear_arith);
    assert((c1 - b1) * (p0 - c0) + (b0 - c0) * (p1 - c1) == -((b1 - c1) * (p0 - c0) + (c0 - b0) * (p1
        - c1))) by (nonlinear_arith);
}

/// A product of differences, multiplied out.
proof fn lemma_expand(x: int, y: int, z: int, w: int)
    by (nonlinear_arith)
    ensures
        (x - y) * (z - w) == x * z - x * w - y * z + y * w,
{
}

/// The sub-area opposite corner `c`, measured from corner `b`.
proof fn lemma_corner_c_area(a0: int, a1: int, b0: int, b1: int, c0: int, c1: int, p0: int, p1: int)
    ensures
        (b1 - a1) * (p0 - b0) + (a0 - b0) * (p1 - b1) == -(((a0 - c0) * (b1 - c1) - (b0 - c0) * (a1 - c1))
            - ((b1 - c1) * (p0 - c0) + (c0 - b0) * (p1 - c1)) - ((c1 - a1) * (p0 - c0) + (a0 - c0) * (p1
            - c1))),
{
    lemma_expand(b1, a1, p0, b0);
    lemma_expand(a0, b0, p1, b1);
    lemma_expand(a0, c0, b1, c1);
    lemma_expand(b0, c0, a1, c1);
    lemma_expand(b1, c1, p0, c0);
    lemma_expand(c0, b0, p1, c1);
    lemma_expand(c1, a1, p0, c0);
    lemma_expand(a0, c0, p1, c1);
    assert(b1 * b0 == b0 * b1 && c0 * b1 == b1 * c0 && b0 * a1 == a1 * b0 && c0 * c1 == c1 * c0 && c1 * p0
        == p0 * c1 && c0 * a1 == a1 * c0 && c0 * p1 == p1 * c0 && a0 * c1 == c1 * a0 && b0 * c1 == c1 * b0)
        by (nonlinear_arith);
}

/// Swapping the last two corners turns the triangle over: its orientation
/// and every sub-area change sign, and the weights of the two corners trade places.
proof fn lemma_swap_last(a: (int, int), b: (int, int), c: (int, int), p: (int, int))
    ensures
        det(a, c, b) == -det(a, b, c),
        weight_a(c, b, p) == -weight_a(b, c, p),
        weight_b(a, b, p) == -weight_c(a, b, c, p),
        weight_c(a, c, b, p) == -weight_b(a, c, p),
        inside(a, c, b, p) == inside(a, b, c, p),
        barycentric_weights(a, c, b, p) == match barycentric_weights(a, b, c, p) {
            Some(w) => Some((w.0, w.2, w.1)),
            None => None,
        },
{
    let (a0, a1, b0, b1, c0, c1, p0, p1) = (a.0, a.1, b.0, b.1, c.0, c.1, p.0, p.1);
    assert((a0 - b0) * (c1 - b1) - (c0 - b0) * (a1 - b1) == -((a0 - c0) * (b1 - c1) - (b0 - c0) * (a1
        - c1))) by (nonlinear_arith);
    assert((c1 - b1) * (p0 - b0) + (b0 - c0) * (p1 - b1) == -((b1 - c1) * (p0 - c0) + (c0 - b0) * (p1
        - c1))) by (nonlinear_arith);
    lemma_corner_c_area(a0, a1, b0, b1, c0, c1, p0, p1);
}

/// Blending does not depend on the order in which the colour and weight pairs come.
proof fn lemma_blend_order(k1: u32, k2: u32, k3: u32, b1: u32, b2: u32, b3: u32)
    ensures
        blend(k2, k1, k3, b2, b1, b3) == blend(k1, k2, k3, b1, b2, b3),
        blend(k1, k3, k2, b1, b3, b2) == blend(k1, k2, k3, b1, b2, b3),
{
    assert forall|k: int| 0 <= k < 4 implies #[trigger] weighted_byte(k2, k1, k3, b2, b1, b3, k)
        == weighted_byte(k1, k2, k3, b1, b2, b3, k) && weighted_byte(k1, k3, k2, b1, b3, b2, k)
        == weighted_byte(k1, k2, k3, b1, b2, b3, k) by {}
}

/// The pixels a triangle covers do not depend on the order of its corners.
proof fn lemma_covers_order(sa: (int, int), sb: (int, int), sc: (int, int))
    ensures
        tri_covers(sb, sa, sc) == tri_covers(sa, sb, sc),
        tri_covers(sa, sc, sb) == tri_covers(sa, sb, sc),
{
    assert forall|x: int, y: int| #[trigger] tri_covers(sb, sa, sc)(x, y) == tri_covers(sa, sb, sc)(x, y)
        && tri_covers(sa, sc, sb)(x, y) == tri_covers(sa, sb, sc)(x, y) by {
        lemma_swap_first(sa, sb, sc, (x, y));
        lemma_swap_last(sa, sb, sc, (x, y));
    }
    assert(tri_covers(sb, sa, sc) =~= tri_covers(sa, sb, sc));
    assert(tri_covers(sa, sc, sb) =~= tri_covers(sa, sb, sc));
}

/// With one colour, the colour a triangle puts down does not depend on the order of its corners.
proof fn lemma_single_shade_order(sa: (int, int), sb: (int, int), sc: (int, int), k: u32)
    ensures
        tri_shade(Colour::Single(k), sb, sa, sc) == tri_shade(Colour::Single(k), sa, sb, sc),
        tri_shade(Colour::Single(k), sa, sc, sb) == tri_shade(Colour::Single(k), sa, sb, sc),
{
    assert(tri_shade(Colour::Single(k), sb, sa, sc) =~= tri_shade(Colour::Single(k), sa, sb, sc));
    assert(tri_shade(Colour::Single(k), sa, sc, sb) =~= tri_shade(Colour::Single(k), sa, sb, sc));
}

/// With three corner colours that follow their corners, swapping the first
/// two corners puts down the same colours.
proof fn lemma_triplet_shade_swap_first(sa: (int, int), sb: (int, int), sc: (int, int), k1: u32, k2: u32, k3: u32)
    ensures
        tri_shade(Colour::Triplet(k2, k1, k3), sb, sa, sc) == tri_shade(Colour::Triplet(k1, k2, k3), sa, sb, sc),
{
    assert forall|x: int, y: int, o: u32| #[trigger] tri_shade(Colour::Triplet(k2, k1, k3), sb, sa, sc)(x, y, o)
        == tri_shade(Colour::Triplet(k1, k2, k3), sa, sb, sc)(x, y, o) by {
        lemma_swap_first(sa, sb, sc, (x, y));
        let w = barycentric_weights(sa, sb, sc, (x, y))->0;
        lemma_blend_order(k1, k2, k3, w.0 as u32, w.1 as u32, w.2 as u32);
        assert(tri_colour(Colour::Triplet(k2, k1, k3), sb, sa, sc, x, y) == tri_colour(
            Colour::Triplet(k1, k2, k3),
            sa,
            sb,
            sc,
            x,
            y,
        ));
    }
    assert(tri_shade(Colour::Triplet(k2, k1, k3), sb, sa, sc) =~= tri_shade(Colour::Triplet(k1, k2, k3), sa, sb, sc));
}

/// With three corner colours that follow their corners, swapping the last
/// two corners puts down the same colours.
proof fn lemma_triplet_shade_swap_last(sa: (int, int), sb: (int, int), sc: (int, int), k1: u32, k2: u32, k3: u32)
    ensures
        tri_shade(Colour::Triplet(k1, k3, k2), sa, sc, sb) == tri_shade(Colour::Triplet(k1, k2, k3), sa, sb, sc),
{
    assert forall|x: int, y: int, o: u32| #[trigger] tri_shade(Colour::Triplet(k1, k3, k2), sa, sc, sb)(x, y, o)
        == tri_shade(Colour::Triplet(k1, k2, k3), sa, sb, sc)(x, y, o) by {
        lemma_swap_last(sa, sb, sc, (x, y));
        let w = barycentric_weights(sa, sb, sc, (x, y))->0;
        lemma_blend_order(k1, k2, k3, w.0 as u32, w.1 as u32, w.2 as u32);
        assert(tri_colour(Colour::Triplet(k1, k3, k2), sa, sc, sb, x, y) == tri_colour(
            Colour::Triplet(k1, k2, k3),
            sa,
            sb,
            sc,
            x,
            y,
        ));
    }
    assert(tri_shade(Colour::Triplet(k1, k3, k2), sa, sc, sb) =~= tri_shade(Colour::Triplet(k1, k2, k3), sa, sb, sc));
}

/// The order of a triangle's corners does not matter: clockwise and
/// counter-clockwise triangles fill the same pixels, with one colour the
/// same way, and with three corner colours the same way when the colours
/// follow their corners. (Swapping the first two corners, or the last two,
/// yields every order.)
pub proof fn law_triangle_corner_order(
    view: CanvasView,
    s: Seq<u32>,
    a: (isize, isize),
    b: (isize, isize),
    c: (isize, isize),
    k: u32,
    k1: u32,
    k2: u32,
    k3: u32,
)
    ensures
        view.triangle_result(s, b, a, c, Colour::Single(k)) == view.triangle_result(s, a, b, c, Colour::Single(k)),
        view.triangle_result(s, a, c, b, Colour::Single(k)) == view.triangle_result(s, a, b, c, Colour::Single(k)),
        view.triangle_result(s, b, a, c, Colour::Triplet(k2, k1, k3)) == view.triangle_result(
            s,
            a,
            b,
            c,
            Colour::Triplet(k1, k2, k3),
        ),
        view.triangle_result(s, a, c, b, Colour::Triplet(k1, k3, k2)) == view.triangle_result(
            s,
            a,
            b,
            c,
            Colour::Triplet(k1, k2, k3),
        ),
{
    let (sa, sb, sc) = (shift(a, view.offset), shift(b, view.offset), shift(c, view.offset));
    assert(tri_min(b, a, c) == tri_min(a, b, c));
    assert(tri_min(a, c, b) == tri_min(a, b, c));
    assert(tri_size(b, a, c) == tri_size(a, b, c));
    assert(tri_size(a, c, b) == tri_size(a, b, c));
    lemma_covers_order(sa, sb, sc);
    lemma_single_shade_order(sa, sb, sc, k);
    lemma_triplet_shade_swap_first(sa, sb, sc, k1, k2, k3);
    lemma_triplet_shade_swap_last(sa, sb, sc, k1, k2, k3);
}

/// Composites the triangle's colour over pixel `(x, y)` where its
/// barycentric test succeeds.
fn triangle_pixel(
    canvas: &mut [u32],
    stride: u32,
    x: isize,
    y: isize,
    a: (isize, isize),
    b: (isize, isize),
    c: (isize, isize),
    colour: &Colour,
)
    requires
        barycentric_defined(pt(a), pt(b), pt(c), (x as int, y as int)),
        tri_covers(pt(a), pt(b), pt(c))(x as int, y as int) ==> pixel_ok(
            x as int,
            y as int,
            stride as int,
            old(canvas)@.len() as int,
        ),
    ensures
        final(canvas)@ == crate::paint::paint_at(
            old(canvas)@,
            stride as int,
            x as int,
            y as int,
            tri_covers(pt(a), pt(b), pt(c)),
            tri_shade(*colour, pt(a), pt(b), pt(c)),
        ),
{
    match barycentric(a, b, c, (x, y)) {
        Some((wgt1, wgt2, wgt3)) => {
            let ghost bw = barycentric_weights(pt(a), pt(b), pt(c), (x as int, y as int));
            proof {
                lemma_weights_bounded(pt(a), pt(b), pt(c), (x as int, y as int));
            }
            let k = match colour {
                Colour::Single(k) => *k,
                Colour::Triplet(k1, k2, k3) => {
                    let (b1, b2, b3) = (wgt1 as u32, wgt2 as u32, wgt3 as u32);
                    proof {
                        lemma_blend_fits(*k1, *k2, *k3, b1, b2, b3);
                    }
                    blend_colours(k1, k2, k3, &b1, &b2, &b3)
                },
            };
            let i = crate::pixel_offset(x, y, stride, canvas.len());
            let mut px = canvas[i];
            apply_argb(&mut px, k);
            canvas[i] = px;
        },
        None => {},
    }
}

/// Weights that add up to at most 255 never overflow a blend.
pub proof fn lemma_blend_fits(k1: u32, k2: u32, k3: u32, b1: u32, b2: u32, b3: u32)
    requires
        b1 + b2 + b3 <= 255,
    ensures
        blend_fits(k1, k2, k3, b1, b2, b3),
{
    assert forall|k: int| 0 <= k < 4 implies #[trigger] weighted_byte(k1, k2, k3, b1, b2, b3, k) <= u32::MAX by {
        let x1 = byte_of(k1, k);
        let x2 = byte_of(k2, k);
        let x3 = byte_of(k3, k);
        assert(0 <= x1 < 256 && 0 <= x2 < 256 && 0 <= x3 < 256);
        assert(x1 * b1 + x2 * b2 + x3 * b3 <= 255 * 255) by (nonlinear_arith)
            requires
                0 <= x1 < 256,
                0 <= x2 < 256,
                0 <= x3 < 256,
                b1 + b2 + b3 <= 255,
        ;
    }
}

/// Fills the triangle over the rectangle `x0 .. x1` by `y0 .. y1`, row by row.
fn triangle_area(
    canvas: &mut [u32],
    stride: u32,
    x0: isize,
    x1: isize,
    y0: isize,
    y1: isize,
    a: (isize, isize),
    b: (isize, isize),
    c: (isize, isize),
    off: (isize, isize),
    colour: &Colour,
)
    requires
        x0 < x1 ==> {
            &&& fits_isize(shift(a, off).0) && fits_isize(shift(a, off).1)
            &&& fits_isize(shift(b, off).0) && fits_isize(shift(b, off).1)
            &&& fits_isize(shift(c, off).0) && fits_isize(shift(c, off).1)
        },
        tri_tests_defined(shift(a, off), shift(b, off), shift(c, off), x0 as int, x1 as int, y0 as int, y1 as int),
        area_ok(
            old(canvas)@.len() as int,
            stride as int,
            x0 as int,
            x1 as int,
            y0 as int,
            y1 as int,
            tri_covers(shift(a, off), shift(b, off), shift(c, off)),
        ),
    ensures
        final(canvas)@ == paint_area(
            old(canvas)@,
            stride as int,
            x0 as int,
            x1 as int,
            y0 as int,
            y1 as int,
            tri_covers(shift(a, off), shift(b, off), shift(c, off)),
            tri_shade(*colour, shift(a, off), shift(b, off), shift(c, off)),
        ),
{
    let ghost start = canvas@;
    let ghost len = canvas@.len() as int;
    let ghost (sa, sb, sc) = (shift(a, off), shift(b, off), shift(c, off));
    let mut y = y0;
    while y < y1
        invariant
            y0 <= y,
            y <= y1 || y == y0,
            len == start.len(),
            sa == shift(a, off),
            sb == shift(b, off),
            sc == shift(c, off),
            x0 < x1 ==> {
                &&& fits_isize(sa.0) && fits_isize(sa.1)
                &&& fits_isize(sb.0) && fits_isize(sb.1)
                &&& fits_isize(sc.0) && fits_isize(sc.1)
            },
            tri_tests_defined(sa, sb, sc, x0 as int, x1 as int, y0 as int, y1 as int),
            area_ok(len, stride as int, x0 as int, x1 as int, y0 as int, y1 as int, tri_covers(sa, sb, sc)),
            canvas@ == paint_area(
                start,
                stride as int,
                x0 as int,
                x1 as int,
                y0 as int,
                y as int,
                tri_covers(sa, sb, sc),
                tri_shade(*colour, sa, sb, sc),
            ),
        decreases y1 - y,
    {
        proof {
            lemma_paint_area_len(start, stride as int, x0 as int, x1 as int, y0 as int, y as int, tri_covers(sa, sb, sc), tri_shade(*colour, sa, sb, sc));
        }
        let ghost row_start = canvas@;
        let mut x = x0;
        while x < x1
            invariant
                x0 <= x,
                x <= x1 || x == x0,
                y0 <= y < y1,
                row_start.len() == len,
                sa == shift(a, off),
                sb == shift(b, off),
                sc == shift(c, off),
                x0 < x1 ==> {
                    &&& fits_isize(sa.0) && fits_isize(sa.1)
                    &&& fits_isize(sb.0) && fits_isize(sb.1)
                    &&& fits_isize(sc.0) && fits_isize(sc.1)
                },
                tri_tests_defined(sa, sb, sc, x0 as int, x1 as int, y0 as int, y1 as int),
                area_ok(len, stride as int, x0 as int, x1 as int, y0 as int, y1 as int, tri_covers(sa, sb, sc)),
                canvas@ == paint_span(
                    row_start,
                    stride as int,
                    y as int,
                    x0 as int,
                    x as int,
                    tri_covers(sa, sb, sc),
                    tri_shade(*colour, sa, sb, sc),
                ),
            decreases x1 - x,
        {
            proof {
                lemma_paint_span_len(row_start, stride as int, y as int, x0 as int, x as int, tri_covers(sa, sb, sc), tri_shade(*colour, sa, sb, sc));
                assert(barycentric_defined(sa, sb, sc, (x as int, y as int)));
            }
            let pa = (a.0 + off.0, a.1 + off.1);
            let pb = (b.0 + off.0, b.1 + off.1);
            let pc = (c.0 + off.0, c.1 + off.1);
            triangle_pixel(canvas, stride, x, y, pa, pb, pc, colour);
            x += 1;
        }
        y += 1;
    }
}

/// The sub-areas opposite the corners locate the point: weighted by them,
/// the corners add up to the point times the whole signed area, and the
/// sub-areas add up to the whole.
pub proof fn law_weights_locate_point(a: (int, int), b: (int, int), c: (int, int), p: (int, int))
    ensures
        weight_a(b, c, p) + weight_b(a, c, p) + weight_c(a, b, c, p) == det(a, b, c),
        weight_a(b, c, p) * a.0 + weight_b(a, c, p) * b.0 + weight_c(a, b, c, p) * c.0 == det(a, b, c) * p.0,
        weight_a(b, c, p) * a.1 + weight_b(a, c, p) * b.1 + weight_c(a, b, c, p) * c.1 == det(a, b, c) * p.1,
{
    let (a0, a1, b0, b1, c0, c1, p0, p1) = (a.0, a.1, b.0, b.1, c.0, c.1, p.0, p.1);
    let (wa, wb, d) = (weight_a(b, c, p), weight_b(a, c, p), det(a, b, c));
    let (ua0, ua1, ub0, ub1, up0, up1) = (a0 - c0, a1 - c1, b0 - c0, b1 - c1, p0 - c0, p1 - c1);
    assert(wa == ub1 * up0 - ub0 * up1) by (nonlinear_arith)
        requires
            wa == (b1 - c1) * (p0 - c0) + (c0 - b0) * (p1 - c1),
            ub1 == b1 - c1,
            ub0 == b0 - c0,
            up0 == p0 - c0,
            up1 == p1 - c1,
    ;
    assert(wb == ua0 * up1 - ua1 * up0) by (nonlinear_arith)
        requires
            wb == (c1 - a1) * (p0 - c0) + (a0 - c0) * (p1 - c1),
            ua0 == a0 - c0,
            ua1 == a1 - c1,
            up0 == p0 - c0,
            up1 == p1 - c1,
    ;
    assert(d == ua0 * ub1 - ub0 * ua1);
    assert(wa * ua0 + wb * ub0 == d * up0) by (nonlinear_arith)
        requires
            wa == ub1 * up0 - ub0 * up1,
            wb == ua0 * up1 - ua1 * up0,
            d == ua0 * ub1 - ub0 * ua1,
    ;
    assert(wa * ua1 + wb * ub1 == d * up1) by (nonlinear_arith)
        requires
            wa == ub1 * up0 - ub0 * up1,
            wb == ua0 * up1 - ua1 * up0,
            d == ua0 * ub1 - ub0 * ua1,
    ;
    let wc = weight_c(a, b, c, p);
    assert(wa * a0 + wb * b0 + wc * c0 == d * p0) by (nonlinear_arith)
        requires
            wc == d - wa - wb,
            wa * (a0 - c0) + wb * (b0 - c0) == d * (p0 - c0),
    ;
    assert(wa * a1 + wb * b1 + wc * c1 == d * p1) by (nonlinear_arith)
        requires
            wc == d - wa - wb,
            wa * (a1 - c1) + wb * (b1 - c1) == d * (p1 - c1),
    ;
}

/// A weighted mean with weights of one sign lies between the least and the
/// greatest of the values.
proof fn lemma_mean_between(w1: int, w2: int, w3: int, x1: int, x2: int, x3: int, px: int, d: int)
    requires
        d > 0,
        w1 >= 0,
        w2 >= 0,
        w3 >= 0,
        w1 + w2 + w3 == d,
        w1 * x1 + w2 * x2 + w3 * x3 == d * px,
    ensures
        px >= x1 || px >= x2 || px >= x3,
        px <= x1 || px <= x2 || px <= x3,
{
    if px < x1 && px < x2 && px < x3 {
        assert(w1 * x1 + w2 * x2 + w3 * x3 >= w1 * px + w2 * px + w3 * px) by (nonlinear_arith)
            requires
                w1 >= 0,
                w2 >= 0,
                w3 >= 0,
                px < x1 && px < x2 && px < x3,
        ;
        assert(w1 * x1 + w2 * x2 + w3 * x3 > d * px) by (nonlinear_arith)
            requires
                w1 >= 0,
                w2 >= 0,
                w3 >= 0,
                w1 + w2 + w3 == d,
                d > 0,
                px < x1 && px < x2 && px < x3,
        ;
    }
    if px > x1 && px > x2 && px > x3 {
        assert(w1 * x1 + w2 * x2 + w3 * x3 < d * px) by (nonlinear_arith)
            requires
                w1 >= 0,
                w2 >= 0,
                w3 >= 0,
                w1 + w2 + w3 == d,
                d > 0,
                px > x1 && px > x2 && px > x3,
        ;
    }
}

/// A point inside a triangle that is not degenerate lies in its bounding box.
proof fn lemma_inside_in_box(a: (int, int), b: (int, int), c: (int, int), p: (int, int))
    requires
        inside(a, b, c, p),
        det(a, b, c) != 0,
    ensures
        p.0 >= a.0 || p.0 >= b.0 || p.0 >= c.0,
        p.0 <= a.0 || p.0 <= b.0 || p.0 <= c.0,
        p.1 >= a.1 || p.1 >= b.1 || p.1 >= c.1,
        p.1 <= a.1 || p.1 <= b.1 || p.1 <= c.1,
{
    law_weights_locate_point(a, b, c, p);
    let (wa, wb, wc, d) = (weight_a(b, c, p), weight_b(a, c, p), weight_c(a, b, c, p), det(a, b, c));
    if d > 0 {
        lemma_mean_between(wa, wb, wc, a.0, b.0, c.0, p.0, d);
        lemma_mean_between(wa, wb, wc, a.1, b.1, c.1, p.1, d);
    } else {
        assert((-wa) * a.0 + (-wb) * b.0 + (-wc) * c.0 == (-d) * p.0) by (nonlinear_arith)
            requires
                wa * a.0 + wb * b.0 + wc * c.0 == d * p.0,
        ;
        assert((-wa) * a.1 + (-wb) * b.1 + (-wc) * c.1 == (-d) * p.1) by (nonlinear_arith)
            requires
                wa * a.1 + wb * b.1 + wc * c.1 == d * p.1,
        ;
        lemma_mean_between(-wa, -wb, -wc, a.0, b.0, c.0, p.0, -d);
        lemma_mean_between(-wa, -wb, -wc, a.1, b.1, c.1, p.1, -d);
    }
}

/// Moving a triangle and a point together changes no sub-area.
proof fn lemma_inside_moved(a: (int, int), b: (int, int), c: (int, int), p: (int, int), o: (int, int))
    ensures
        ({
            let m = |q: (int, int)| (q.0 + o.0, q.1 + o.1);
            &&& det(m(a), m(b), m(c)) == det(a, b, c)
            &&& weight_a(m(b), m(c), m(p)) == weight_a(b, c, p)
            &&& weight_b(m(a), m(c), m(p)) == weight_b(a, c, p)
            &&& weight_c(m(a), m(b), m(c), m(p)) == weight_c(a, b, c, p)
            &&& inside(m(a), m(b), m(c), m(p)) == inside(a, b, c, p)
        }),
{
}

/// Where the view lies inside the stride, a triangle is composited exactly
/// once over each point `(x, y)` of the view that lies in the closed
/// triangle, and every other pixel is left as it was. A point lies in the
/// closed triangle when the three signed areas it spans with two of the
/// corners have the sign of the triangle's own signed area, or are 0; a
/// degenerate triangle draws nothing. As `normalise_rect` has it, nothing
/// is drawn either unless some corner stands before the view's last
/// column and some corner before its last row.
pub proof fn law_triangle_draws_triangle(
    view: CanvasView,
    s: Seq<u32>,
    a: (isize, isize),
    b: (isize, isize),
    c: (isize, isize),
    colour: Colour,
    i: int,
)
    requires
        crate::inside_stride(view),
        view.triangle_ok(a, b, c, s.len() as int),
        0 <= i < s.len(),
    ensures
        ({
            let x = i % view.stride as int - view.offset.0;
            let y = i / view.stride as int - view.offset.1;
            let d = (a.0 - c.0) * (b.1 - c.1) - (b.0 - c.0) * (a.1 - c.1);
            let e1 = (x - c.0) * (b.1 - c.1) - (b.0 - c.0) * (y - c.1);
            let e2 = (a.0 - c.0) * (y - c.1) - (x - c.0) * (a.1 - c.1);
            let e3 = (a.0 - x) * (b.1 - y) - (b.0 - x) * (a.1 - y);
            let covered = 0 <= x < view.w && 0 <= y < view.h && (a.0 < view.w - 1 || b.0 < view.w - 1 || c.0
                < view.w - 1) && (a.1 < view.h - 1 || b.1 < view.h - 1 || c.1 < view.h - 1) && ((d > 0 && e1
                >= 0 && e2 >= 0 && e3 >= 0) || (d < 0 && e1 <= 0 && e2 <= 0 && e3 <= 0));
            view.triangle_result(s, a, b, c, colour)[i] == if covered {
                over(
                    s[i],
                    tri_colour(
                        colour,
                        shift(a, view.offset),
                        shift(b, view.offset),
                        shift(c, view.offset),
                        x + view.offset.0,
                        y + view.offset.1,
                    ),
                )
            } else {
                s[i]
            }
        }),
{
    let stride = view.stride as int;
    crate::paint::lemma_coords_index(i, stride);
    let (xx, yy) = (i % stride, i / stride);
    let x = xx - view.offset.0;
    let y = yy - view.offset.1;
    let (pa, pb, pc, pp) = (pt(a), pt(b), pt(c), (x, y));
    let o = (view.offset.0 as int, view.offset.1 as int);
    let (sa, sb, sc) = (shift(a, view.offset), shift(b, view.offset), shift(c, view.offset));
    lemma_inside_moved(pa, pb, pc, pp, o);
    assert(sa == (pa.0 + o.0, pa.1 + o.1));
    assert(sb == (pb.0 + o.0, pb.1 + o.1));
    assert(sc == (pc.0 + o.0, pc.1 + o.1));
    assert((xx, yy) == (pp.0 + o.0, pp.1 + o.1));
    let d = det(pa, pb, pc);
    let e1 = weight_a(pb, pc, pp);
    let e2 = weight_b(pa, pc, pp);
    let e3 = weight_c(pa, pb, pc, pp);
    // the third sub-area, written from the corners `a` and `b`
    assert(e3 == (a.0 - x) * (b.1 - y) - (b.0 - x) * (a.1 - y)) by {
        lemma_corner_c_area(pa.0, pa.1, pb.0, pb.1, pc.0, pc.1, x, y);
        assert((a.0 - x) * (b.1 - y) - (b.0 - x) * (a.1 - y) == -((b.1 - a.1) * (x - b.0) + (a.0 - b.0) * (y
            - b.1))) by (nonlinear_arith);
    }
    assert(e1 == (x - c.0) * (b.1 - c.1) - (b.0 - c.0) * (y - c.1)) by (nonlinear_arith)
        requires
            e1 == (b.1 - c.1) * (x - c.0) + (c.0 - b.0) * (y - c.1),
    ;
    assert(e2 == (a.0 - c.0) * (y - c.1) - (x - c.0) * (a.1 - c.1)) by (nonlinear_arith)
        requires
            e2 == (c.1 - a.1) * (x - c.0) + (a.0 - c.0) * (y - c.1),
    ;
    let sides = (d > 0 && e1 >= 0 && e2 >= 0 && e3 >= 0) || (d < 0 && e1 <= 0 && e2 <= 0 && e3 <= 0);
    assert(sides ==> inside(pa, pb, pc, pp));
    assert(inside(pa, pb, pc, pp) && d != 0 ==> sides);
    let lo = tri_min(a, b, c);
    let size = tri_size(a, b, c);
    let hi = tri_max(a, b, c);
    if sides {
        lemma_inside_in_box(pa, pb, pc, pp);
    }
    match normalised(view, lo, size.0, size.1) {
        Some(nr) => {
            crate::lemma_normalised_bounds(view, lo, size.0, size.1);
            law_triangle_pointwise(view, s, nr, a, b, c, colour, i);
            let p = view.placed(nr);
            if p.0 <= xx < p.1 && p.2 <= yy < p.3 {
                assert(barycentric_defined(sa, sb, sc, (xx, yy)));
                if inside(pa, pb, pc, pp) {
                    assert(d != 0);
                }
            }
        },
        None => {},
    }
}

} // verus!
