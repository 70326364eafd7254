//! The ruler: a dashed cross through a point of a view, spanning the view.
use vstd::prelude::*;
use crate::{CanvasView, pixel_offset};
use crate::{in_view, inside_stride, lemma_paint_point_at, paint_point, point_ok, view_coords};
use crate::helpers::{apply_argb, over};

verus! {

/// The light dash colour: white at half opacity.
pub open spec fn ruler_light() -> u32 {
    0x80FFFFFF
}

/// The dark dash colour: black at half opacity.
pub open spec fn ruler_dark() -> u32 {
    0x80000000
}

/// The colour of the ruler at coordinate `v` of an arm through coordinate
/// `c`: light where `v` has the parity of `c`, dark elsewhere.
pub open spec fn ruler_colour(v: int, c: int) -> u32 {
    if v % 2 == c % 2 {
        ruler_light()
    } else {
        ruler_dark()
    }
}

/// The pixel `k` below `p`, if it lies in the view.
pub open spec fn arm_down(s: Seq<u32>, view: CanvasView, p: (int, int), k: int) -> Seq<u32> {
    if p.1 + k <= view.h - 1 {
        paint_point(s, view, (p.0, p.1 + k), ruler_colour(p.1 + k, p.1))
    } else {
        s
    }
}

/// The pixel `k` above `p`, if it lies in the view.
pub open spec fn arm_up(s: Seq<u32>, view: CanvasView, p: (int, int), k: int) -> Seq<u32> {
    if p.1 - k >= 0 {
        paint_point(s, view, (p.0, p.1 - k), ruler_colour(p.1 - k, p.1))
    } else {
        s
    }
}

/// The pixel `k` right of `p`, if it lies in the view.
pub open spec fn arm_right(s: Seq<u32>, view: CanvasView, p: (int, int), k: int) -> Seq<u32> {
    if p.0 + k <= view.w - 1 {
        paint_point(s, view, (p.0 + k, p.1), ruler_colour(p.0 + k, p.0))
    } else {
        s
    }
}

/// The pixel `k` left of `p`, if it lies in the view.
pub open spec fn arm_left(s: Seq<u32>, view: CanvasView, p: (int, int), k: int) -> Seq<u32> {
    if p.0 - k >= 0 {
        paint_point(s, view, (p.0 - k, p.1), ruler_colour(p.0 - k, p.0))
    } else {
        s
    }
}

/// Step `k` of the ruler through `p`: the pixels `k` below, above, right of
/// and left of `p`, in that order, those that lie in the view.
pub open spec fn ruler_step(s: Seq<u32>, view: CanvasView, p: (int, int), k: int) -> Seq<u32> {
    arm_left(arm_right(arm_up(arm_down(s, view, p, k), view, p, k), view, p, k), view, p, k)
}

/// Steps `1 ..= n` of the ruler through `p`.
pub open spec fn ruler_steps(s: Seq<u32>, view: CanvasView, p: (int, int), n: int) -> Seq<u32>
    decreases n,
{
    if n <= 0 {
        s
    } else {
        ruler_step(ruler_steps(s, view, p, n - 1), view, p, n)
    }
}

/// How many steps the ruler through `p` takes: the longest of its four arms.
pub open spec fn ruler_reach(view: CanvasView, p: (int, int)) -> int {
    let a = view.h - 1 - p.1;
    let b = p.1;
    let c = view.w - 1 - p.0;
    let d = p.0;
    let m1 = if a >= b {
        a
    } else {
        b
    };
    let m2 = if c >= d {
        c
    } else {
        d
    };
    if m1 >= m2 {
        m1
    } else {
        m2
    }
}

/// Whether the ruler is drawn for `p`: it lies in the view, off its last
/// column and row.
pub open spec fn ruler_drawn(view: CanvasView, p: (int, int)) -> bool {
    0 <= p.0 < view.w - 1 && 0 <= p.1 < view.h - 1
}

/// The canvas after drawing the ruler through `p`.
pub open spec fn ruler(s: Seq<u32>, view: CanvasView, p: (int, int)) -> Seq<u32> {
    if ruler_drawn(view, p) {
        ruler_steps(paint_point(s, view, p, ruler_light()), view, p, ruler_reach(view, p))
    } else {
        s
    }
}

/// Whether every pixel of the cross through `p` can be drawn.
pub open spec fn ruler_ok(view: CanvasView, p: (int, int), len: int) -> bool {
    ruler_drawn(view, p) ==> {
        &&& forall|y: int| 0 <= y < view.h ==> #[trigger] point_ok(view, (p.0, y), len)
        &&& forall|x: int| 0 <= x < view.w ==> #[trigger] point_ok(view, (x, p.1), len)
    }
}

proof fn lemma_parity(v: isize)
    requires
        0 <= v,
    ensures
        (v & 1) as int == (v as int) % 2,
{
    assert(0 <= v ==> (v & 1) as int == (v as int) % 2) by (bit_vector);
}

/// The colour that the first `n` steps of the ruler through `p` put over
/// point `q`, if any: on the column or the row through `p`, at a distance
/// of `1 ..= n` from `p`.
pub open spec fn cross_colour(view: CanvasView, p: (int, int), q: (int, int), n: int) -> Option<u32> {
    if !in_view(view, q) {
        None
    } else if q.0 == p.0 && 1 <= q.1 - p.1 <= n {
        Some(ruler_colour(q.1, p.1))
    } else if q.0 == p.0 && 1 <= p.1 - q.1 <= n {
        Some(ruler_colour(q.1, p.1))
    } else if q.1 == p.1 && 1 <= q.0 - p.0 <= n {
        Some(ruler_colour(q.0, p.0))
    } else if q.1 == p.1 && 1 <= p.0 - q.0 <= n {
        Some(ruler_colour(q.0, p.0))
    } else {
        None
    }
}

/// The colour that the ruler through `p` puts over point `q`, if any: the
/// light colour at `p`, the dash colours on the rest of its column and row.
pub open spec fn ruler_mark(view: CanvasView, p: (int, int), q: (int, int)) -> Option<u32> {
    if q == p {
        Some(ruler_light())
    } else if in_view(view, q) && (q.0 == p.0 || q.1 == p.1) {
        Some(if q.0 == p.0 { ruler_colour(q.1, p.1) } else { ruler_colour(q.0, p.0) })
    } else {
        None
    }
}

/// What the first `n` steps of the ruler do to each pixel.
proof fn lemma_ruler_steps_at(s: Seq<u32>, view: CanvasView, p: (int, int), n: int, i: int)
    requires
        inside_stride(view),
        ruler_drawn(view, p),
        ruler_ok(view, p, s.len() as int),
        0 <= n,
        0 <= i < s.len(),
    ensures
        ruler_steps(s, view, p, n).len() == s.len(),
        ruler_steps(s, view, p, n)[i] == match cross_colour(view, p, view_coords(view, i), n) {
            Some(c) => over(s[i], c),
            None => s[i],
        },
    decreases n,
{
    if n > 0 {
        let s0 = ruler_steps(s, view, p, n - 1);
        lemma_ruler_steps_at(s, view, p, n - 1, i);
        let q = view_coords(view, i);
        let down = (p.0, p.1 + n);
        let up = (p.0, p.1 - n);
        let right = (p.0 + n, p.1);
        let left = (p.0 - n, p.1);
        let s1 = arm_down(s0, view, p, n);
        let s2 = arm_up(s1, view, p, n);
        let s3 = arm_right(s2, view, p, n);
        let s4 = arm_left(s3, view, p, n);
        if p.1 + n <= view.h - 1 {
            assert(point_ok(view, (p.0, p.1 + n), s.len() as int));
            lemma_paint_point_at(s0, view, down, ruler_colour(p.1 + n, p.1), i);
        }
        if p.1 - n >= 0 {
            assert(point_ok(view, (p.0, p.1 - n), s.len() as int));
            lemma_paint_point_at(s1, view, up, ruler_colour(p.1 - n, p.1), i);
        }
        if p.0 + n <= view.w - 1 {
            assert(point_ok(view, (p.0 + n, p.1), s.len() as int));
            lemma_paint_point_at(s2, view, right, ruler_colour(p.0 + n, p.0), i);
        }
        if p.0 - n >= 0 {
            assert(point_ok(view, (p.0 - n, p.1), s.len() as int));
            lemma_paint_point_at(s3, view, left, ruler_colour(p.0 - n, p.0), i);
        }
    }
}

/// Where the view lies inside the stride, the ruler through any point `p`
/// of the view off its last column and row (`0 <= p.0 < w - 1`,
/// `0 <= p.1 < h - 1`) composites half-opaque white (`0x80FFFFFF`) over `p`,
/// and over every other point of the view on `p`'s column or row half-opaque
/// white where its distance from `p` is even and half-opaque black
/// (`0x80000000`) where it is odd, each exactly once; every other pixel
/// is left as it was.
pub proof fn law_ruler_marks_the_cross(s: Seq<u32>, view: CanvasView, p: (int, int), i: int)
    requires
        inside_stride(view),
        0 <= p.0 < view.w - 1,
        0 <= p.1 < view.h - 1,
        ruler_ok(view, p, s.len() as int),
        0 <= i < s.len(),
    ensures
        ({
            let x = i % view.stride as int - view.offset.0;
            let y = i / view.stride as int - view.offset.1;
            ruler(s, view, p)[i] == if 0 <= x < view.w && 0 <= y < view.h && (x == p.0 || y == p.1) {
                over(
                    s[i],
                    if (x - p.0) % 2 == 0 && (y - p.1) % 2 == 0 {
                        0x80FFFFFFu32
                    } else {
                        0x80000000u32
                    },
                )
            } else {
                s[i]
            }
        }),
{
    assert(ruler_drawn(view, p));
    assert(point_ok(view, (p.0, p.1), s.len() as int));
    let s0 = paint_point(s, view, p, ruler_light());
    lemma_paint_point_at(s, view, p, ruler_light(), i);
    lemma_ruler_steps_at(s0, view, p, ruler_reach(view, p), i);
    let q = view_coords(view, i);
    assert(q.0 - p.0 == 0 ==> (q.0 - p.0) % 2 == 0);
    assert(q.1 - p.1 == 0 ==> (q.1 - p.1) % 2 == 0);
    assert((q.0 % 2 == p.0 % 2) == ((q.0 - p.0) % 2 == 0));
    assert((q.1 % 2 == p.1 % 2) == ((q.1 - p.1) % 2 == 0));
}

/// A ruler through a point off the range `0 <= p.0 < w - 1`,
/// `0 <= p.1 < h - 1` (outside the view, or on its last column or row)
/// draws nothing.
pub proof fn law_ruler_off_range_draws_nothing(s: Seq<u32>, view: CanvasView, p: (int, int))
    requires
        !(0 <= p.0 < view.w - 1 && 0 <= p.1 < view.h - 1),
    ensures
        ruler(s, view, p) == s,
{
}

impl CanvasView {
    /// Composites `colour` over point `p` of the view, which lies in it.
    fn ruler_pixel(&self, canvas: &mut [u32], p: (isize, isize), colour: u32)
        requires
            0 <= p.0 < self.w,
            0 <= p.1 < self.h,
            point_ok(*self, (p.0 as int, p.1 as int), old(canvas)@.len() as int),
        ensures
            final(canvas)@ == paint_point(old(canvas)@, *self, (p.0 as int, p.1 as int), colour),
    {
        let i = pixel_offset(p.0 + self.offset.0, p.1 + self.offset.1, self.stride, canvas.len());
        let mut px = canvas[i];
        apply_argb(&mut px, colour);
        canvas[i] = px;
    }

    /// The ruler's colour at coordinate `v` of an arm through coordinate `c`.
    fn dash(v: isize, c: isize) -> (r: u32)
        requires
            0 <= v,
            0 <= c,
        ensures
            r == ruler_colour(v as int, c as int),
    {
        proof {
            lemma_parity(v);
            lemma_parity(c);
        }
        if v & 1 == c & 1 {
            0x80FFFFFFu32
        } else {
            0x80000000u32
        }
    }

    fn ruler_down(
        &self,
        canvas: &mut [u32],
        vpu: &mut (isize, isize),
        intersec: (isize, isize),
        h1: isize,
        Ghost(p): Ghost<(int, int)>,
        Ghost(k): Ghost<int>,
        Ghost(len): Ghost<int>,
    )
        requires
            self.dims_fit(),
            h1 == self.h - 1,
            p == (intersec.0 as int, intersec.1 as int),
            ruler_drawn(*self, p),
            ruler_ok(*self, p, len),
            old(canvas)@.len() == len,
            0 <= k,
            old(vpu).0 == intersec.0,
            old(vpu).1 == (if p.1 + k <= h1 { p.1 + k } else { h1 as int }),
        ensures
            final(canvas)@ == arm_down(old(canvas)@, *self, p, k + 1),
            final(canvas)@.len() == len,
            final(vpu).0 == intersec.0,
            final(vpu).1 == (if p.1 + k + 1 <= h1 { p.1 + k + 1 } else { h1 as int }),
    {
        if vpu.1 < h1 {
            vpu.1 += 1;
            proof {
                assert(point_ok(*self, (p.0, vpu.1 as int), len));
            }
            let c = Self::dash(vpu.1, intersec.1);
            self.ruler_pixel(canvas, *vpu, c);
        }
    }

    fn ruler_up(
        &self,
        canvas: &mut [u32],
        vpd: &mut (isize, isize),
        intersec: (isize, isize),
        Ghost(p): Ghost<(int, int)>,
        Ghost(k): Ghost<int>,
        Ghost(len): Ghost<int>,
    )
        requires
            self.dims_fit(),
            p == (intersec.0 as int, intersec.1 as int),
            ruler_drawn(*self, p),
            ruler_ok(*self, p, len),
            old(canvas)@.len() == len,
            0 <= k,
            old(vpd).0 == intersec.0,
            old(vpd).1 == (if p.1 - k >= 0 { p.1 - k } else { 0 }),
        ensures
            final(canvas)@ == arm_up(old(canvas)@, *self, p, k + 1),
            final(canvas)@.len() == len,
            final(vpd).0 == intersec.0,
            final(vpd).1 == (if p.1 - (k + 1) >= 0 { p.1 - (k + 1) } else { 0 }),
    {
        if vpd.1 > 0 {
            vpd.1 -= 1;
            proof {
                assert(point_ok(*self, (p.0, vpd.1 as int), len));
            }
            let c = Self::dash(vpd.1, intersec.1);
            self.ruler_pixel(canvas, *vpd, c);
        }
    }

    fn ruler_right(
        &self,
        canvas: &mut [u32],
        hpr: &mut (isize, isize),
        intersec: (isize, isize),
        w1: isize,
        Ghost(p): Ghost<(int, int)>,
        Ghost(k): Ghost<int>,
        Ghost(len): Ghost<int>,
    )
        requires
            self.dims_fit(),
            w1 == self.w - 1,
            p == (intersec.0 as int, intersec.1 as int),
            ruler_drawn(*self, p),
            ruler_ok(*self, p, len),
            old(canvas)@.len() == len,
            0 <= k,
            old(hpr).1 == intersec.1,
            old(hpr).0 == (if p.0 + k <= w1 { p.0 + k } else { w1 as int }),
        ensures
            final(canvas)@ == arm_right(old(canvas)@, *self, p, k + 1),
            final(canvas)@.len() == len,
            final(hpr).1 == intersec.1,
            final(hpr).0 == (if p.0 + k + 1 <= w1 { p.0 + k + 1 } else { w1 as int }),
    {
        if hpr.0 < w1 {
            hpr.0 += 1;
            proof {
                assert(point_ok(*self, (hpr.0 as int, p.1), len));
            }
            let c = Self::dash(hpr.0, intersec.0);
            self.ruler_pixel(canvas, *hpr, c);
        }
    }

    fn ruler_left(
        &self,
        canvas: &mut [u32],
        hpl: &mut (isize, isize),
        intersec: (isize, isize),
        Ghost(p): Ghost<(int, int)>,
        Ghost(k): Ghost<int>,
        Ghost(len): Ghost<int>,
    )
        requires
            self.dims_fit(),
            p == (intersec.0 as int, intersec.1 as int),
            ruler_drawn(*self, p),
            ruler_ok(*self, p, len),
            old(canvas)@.len() == len,
            0 <= k,
            old(hpl).1 == intersec.1,
            old(hpl).0 == (if p.0 - k >= 0 { p.0 - k } else { 0 }),
        ensures
            final(canvas)@ == arm_left(old(canvas)@, *self, p, k + 1),
            final(canvas)@.len() == len,
            final(hpl).1 == intersec.1,
            final(hpl).0 == (if p.0 - (k + 1) >= 0 { p.0 - (k + 1) } else { 0 }),
    {
        if hpl.0 > 0 {
            hpl.0 -= 1;
            proof {
                assert(point_ok(*self, (hpl.0 as int, p.1), len));
            }
            let c = Self::dash(hpl.0, intersec.0);
            self.ruler_pixel(canvas, *hpl, c);
        }
    }

    /// Draws a dashed cross through `intersec` (in view coordinates) that
    /// spans the whole view: `intersec` itself in the light colour, then,
    /// one step further out at a time, the pixels below, above, right of
    /// and left of it, each light where its coordinate along the arm has
    /// the parity of `intersec`'s and dark elsewhere. Nothing is drawn
    /// unless `intersec` lies in the view, off its last column and row.
    pub fn add_ruler(&self, canvas: &mut [u32], intersec: (isize, isize))
        requires
            self.dims_fit(),
            ruler_ok(*self, (intersec.0 as int, intersec.1 as int), old(canvas)@.len() as int),
        ensures
            final(canvas)@ == ruler(old(canvas)@, *self, (intersec.0 as int, intersec.1 as int)),
    {
        let ghost p = (intersec.0 as int, intersec.1 as int);
        let ghost len = canvas@.len() as int;
        let w1 = self.w as isize - 1;
        let h1 = self.h as isize - 1;
        if intersec.0 >= 0 && intersec.0 < w1 && intersec.1 >= 0 && intersec.1 < h1 {
            let (mut vpu, mut hpr, mut vpd, mut hpl) = (intersec, intersec, intersec, intersec);
            let ghost n = ruler_reach(*self, p);
            proof {
                assert(point_ok(*self, (p.0, p.1), len));
            }
            self.ruler_pixel(canvas, intersec, 0x80FFFFFFu32);
            let ghost base = canvas@;
            let ghost mut k: int = 0;
            loop
                invariant_except_break
                    k < n,
                invariant
                    self.dims_fit(),
                    w1 == self.w - 1,
                    h1 == self.h - 1,
                    p == (intersec.0 as int, intersec.1 as int),
                    ruler_drawn(*self, p),
                    ruler_ok(*self, p, len),
                    n == ruler_reach(*self, p),
                    0 <= k <= n,
                    canvas@.len() == len,
                    vpu.0 == intersec.0,
                    vpu.1 == (if p.1 + k <= h1 { p.1 + k } else { h1 as int }),
                    vpd.0 == intersec.0,
                    vpd.1 == (if p.1 - k >= 0 { p.1 - k } else { 0 }),
                    hpr.0 == (if p.0 + k <= w1 { p.0 + k } else { w1 as int }),
                    hpr.1 == intersec.1,
                    hpl.0 == (if p.0 - k >= 0 { p.0 - k } else { 0 }),
                    hpl.1 == intersec.1,
                    canvas@ == ruler_steps(base, *self, p, k),
                    base.len() == len,
                ensures
                    canvas@ == ruler_steps(base, *self, p, n),
                decreases n - k,
            {
                let ghost s0 = canvas@;
                self.ruler_down(canvas, &mut vpu, intersec, h1, Ghost(p), Ghost(k), Ghost(len));
                self.ruler_up(canvas, &mut vpd, intersec, Ghost(p), Ghost(k), Ghost(len));
                self.ruler_right(canvas, &mut hpr, intersec, w1, Ghost(p), Ghost(k), Ghost(len));
                self.ruler_left(canvas, &mut hpl, intersec, Ghost(p), Ghost(k), Ghost(len));
                proof {
                    k = k + 1;
                    assert(canvas@ == ruler_step(s0, *self, p, k));
                }
                if hpl.0 == 0 && hpr.0 == w1 && vpd.1 == 0 && vpu.1 == h1 {
                    break;
                }
            }
        }
    }
}

} // verus!
