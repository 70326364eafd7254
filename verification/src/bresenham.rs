//! Bresenham's line walk, and drawing lines with it.
use vstd::prelude::*;
use crate::{CanvasView, fits_isize, in_view, inside_stride, lemma_paint_point_at, paint_point, pixel_offset, point_ok, view_coords};
use crate::helpers::{apply_argb, over};
use crate::paint::{pixel_index, pixel_ok};
use crate::triangle::{abs, sign};

verus! {

/// The state of a line walk: the current point, the end point, the
/// absolute extents `dx` and `dy` of the line, the step direction on each
/// axis, and the accumulated error.
pub struct LineState {
    pub x: int,
    pub y: int,
    pub end_x: int,
    pub end_y: int,
    pub dx: int,
    pub dy: int,
    pub sx: int,
    pub sy: int,
    pub err: int,
}

/// A walk along the pixels of a line from one point to another, one pixel at a time.
pub struct Bresenham {
    pub point: (isize, isize),
    dx: usize,
    dy: usize,
    sx: isize,
    sy: isize,
    err: isize,
    end: (isize, isize),
}

impl View for Bresenham {
    type V = LineState;

    closed spec fn view(&self) -> LineState {
        LineState {
            x: self.point.0 as int,
            y: self.point.1 as int,
            end_x: self.end.0 as int,
            end_y: self.end.1 as int,
            dx: self.dx as int,
            dy: self.dy as int,
            sx: self.sx as int,
            sy: self.sy as int,
            err: self.err as int,
        }
    }
}

/// The walk from `p1` to `p2` before its first step.
pub open spec fn line_start(p1: (isize, isize), p2: (isize, isize)) -> LineState {
    let dx = abs(p2.0 - p1.0);
    let dy = abs(p2.1 - p1.1);
    LineState {
        x: p1.0 as int,
        y: p1.1 as int,
        end_x: p2.0 as int,
        end_y: p2.1 as int,
        dx: dx,
        dy: dy,
        sx: sign(p2.0 - p1.0),
        sy: sign(p2.1 - p1.1),
        err: dx - dy,
    }
}

/// Whether `Bresenham::new` computes the walk without overflow: the
/// extents and their absolute values are values of `isize`.
pub open spec fn line_defined(p1: (isize, isize), p2: (isize, isize)) -> bool {
    &&& fits_isize(p2.0 - p1.0)
    &&& fits_isize(p2.1 - p1.1)
    &&& p2.0 - p1.0 != isize::MIN
    &&& p2.1 - p1.1 != isize::MIN
}

/// The error doubled as the walk computes it: a one-bit left shift in `isize`.
pub open spec fn doubled(e: int) -> int {
    ((e as isize) << 1u32) as int
}

pub open spec fn at_end(s: LineState) -> bool {
    s.x == s.end_x && s.y == s.end_y
}

/// Whether the walk steps across, which it does while the doubled error
/// exceeds `-dy`.
pub open spec fn steps_x(s: LineState) -> bool {
    doubled(s.err) > -s.dy
}

/// Whether the walk steps down (or up), which it does while the doubled
/// error is below `dx`.
pub open spec fn steps_y(s: LineState) -> bool {
    doubled(s.err) < s.dx
}

/// One step of the walk: across by `sx` (the error losing `dy`) and/or
/// down by `sy` (the error gaining `dx`).
pub open spec fn line_step(s: LineState) -> LineState {
    let e1 = if steps_x(s) {
        s.err - s.dy
    } else {
        s.err
    };
    LineState {
        x: if steps_x(s) {
            s.x + s.sx
        } else {
            s.x
        },
        y: if steps_y(s) {
            s.y + s.sy
        } else {
            s.y
        },
        err: if steps_y(s) {
            e1 + s.dx
        } else {
            e1
        },
        ..s
    }
}

/// Whether the fields of a walk have the shapes that `Bresenham::new` gives them.
pub open spec fn line_wf(s: LineState) -> bool {
    &&& 0 <= s.dx <= isize::MAX
    &&& 0 <= s.dy <= isize::MAX
    &&& -1 <= s.sx <= 1
    &&& -1 <= s.sy <= 1
    &&& fits_isize(s.x) && fits_isize(s.y)
    &&& fits_isize(s.end_x) && fits_isize(s.end_y)
    &&& fits_isize(s.err)
}

/// Whether `next` computes the step without overflow.
pub open spec fn step_fits(s: LineState) -> bool {
    !at_end(s) ==> {
        &&& steps_x(s) ==> fits_isize(s.err - s.dy) && fits_isize(s.x + s.sx)
        &&& steps_y(s) ==> {
            let e1 = if steps_x(s) {
                s.err - s.dy
            } else {
                s.err
            };
            fits_isize(e1 + s.dx) && fits_isize(s.y + s.sy)
        }
    }
}

/// How far the walk still has to go across and down, counted in steps.
pub open spec fn rem_x(s: LineState) -> int {
    (s.end_x - s.x) * s.sx
}

pub open spec fn rem_y(s: LineState) -> int {
    (s.end_y - s.y) * s.sy
}

/// The invariant of a walk from `Bresenham::new` on a line whose extents
/// are at most a third of `isize::MAX`: it has not passed its end on either
/// axis, its error is determined by how far it still has to go, and it
/// stays within `-3 dy / 2 ..= 3 dx / 2`.
pub open spec fn line_inv(s: LineState) -> bool {
    &&& line_wf(s)
    &&& 3 * s.dx <= isize::MAX
    &&& 3 * s.dy <= isize::MAX
    &&& (s.sx == 0 <==> s.dx == 0)
    &&& (s.sy == 0 <==> s.dy == 0)
    &&& s.sx == 0 ==> s.x == s.end_x
    &&& s.sy == 0 ==> s.y == s.end_y
    &&& 0 <= rem_x(s) <= s.dx
    &&& 0 <= rem_y(s) <= s.dy
    &&& s.err == s.dx - s.dy + s.dy * rem_x(s) - s.dx * rem_y(s)
    &&& -3 * s.dy <= 2 * s.err <= 3 * s.dx
}

/// Whether the line from `p1` to `p2` is short enough for the walk's
/// arithmetic never to overflow: each extent at most a third of `isize::MAX`.
pub open spec fn line_short(p1: (isize, isize), p2: (isize, isize)) -> bool {
    &&& line_defined(p1, p2)
    &&& 3 * abs(p2.0 - p1.0) <= isize::MAX
    &&& 3 * abs(p2.1 - p1.1) <= isize::MAX
}

/// The points that the walk from `s` yields, at most `fuel` of them, until
/// it reaches its end.
pub open spec fn line_trace(s: LineState, fuel: nat) -> Seq<(int, int)>
    decreases fuel,
{
    if fuel == 0 || at_end(s) {
        Seq::empty()
    } else {
        let t = line_step(s);
        seq![(t.x, t.y)] + line_trace(t, (fuel - 1) as nat)
    }
}

/// Every point of a line: its start, then each point of the walk.
pub open spec fn line_points(p1: (isize, isize), p2: (isize, isize)) -> Seq<(int, int)> {
    let s = line_start(p1, p2);
    seq![(p1.0 as int, p1.1 as int)] + line_trace(s, (s.dx + s.dy) as nat)
}

/// Doubling a value of at most half of `isize`'s range with a shift does not wrap.
pub proof fn lemma_doubled(e: int)
    requires
        isize::MIN / 2 <= e <= isize::MAX / 2,
    ensures
        doubled(e) == 2 * e,
{
    let v = e as isize;
    assert(v as int == e);
    assert(usize::BITS == 64 || usize::BITS == 32);
    if usize::BITS == 64 {
        assert(isize::MIN == -0x8000_0000_0000_0000);
        assert(usize::BITS == 64 && -0x4000_0000_0000_0000 <= v < 0x4000_0000_0000_0000 ==> (v << 1u32) as int == 2 * v) by (bit_vector);
    } else {
        assert(isize::MIN == -0x8000_0000);
        assert(usize::BITS == 32 && -0x4000_0000 <= v < 0x4000_0000 ==> (v << 1u32) as int == 2 * v) by (bit_vector);
    }
}

/// The start of a walk on a short line satisfies the invariant.
pub proof fn lemma_start_inv(p1: (isize, isize), p2: (isize, isize))
    requires
        line_short(p1, p2),
    ensures
        line_inv(line_start(p1, p2)),
        rem_x(line_start(p1, p2)) == line_start(p1, p2).dx,
        rem_y(line_start(p1, p2)) == line_start(p1, p2).dy,
{
    let s = line_start(p1, p2);
    assert(rem_x(s) == s.dx);
    assert(rem_y(s) == s.dy);
    assert(s.dy * s.dx == s.dx * s.dy) by (nonlinear_arith);
}

/// A step from a state that is not at the end keeps the invariant, moves
/// to one of the eight neighbouring points, and brings the walk closer to
/// its end.
pub proof fn lemma_step_inv(s: LineState)
    requires
        line_inv(s),
        !at_end(s),
    ensures
        line_inv(line_step(s)),
        step_fits(s),
        rem_x(line_step(s)) + rem_y(line_step(s)) < rem_x(s) + rem_y(s),
        abs(line_step(s).x - s.x) <= 1,
        abs(line_step(s).y - s.y) <= 1,
        line_step(s).x != s.x || line_step(s).y != s.y,
        rem_x(s) + rem_y(s) >= 1,
        steps_x(s) == (2 * s.err > -s.dy),
        steps_y(s) == (2 * s.err < s.dx),
        rem_x(line_step(s)) == if steps_x(s) {
            rem_x(s) - 1
        } else {
            rem_x(s)
        },
        rem_y(line_step(s)) == if steps_y(s) {
            rem_y(s) - 1
        } else {
            rem_y(s)
        },
{
    let rx = rem_x(s);
    let ry = rem_y(s);
    let (dx, dy, e) = (s.dx, s.dy, s.err);
    lemma_doubled(e);
    let t = line_step(s);
    assert(rx > 0 || ry > 0) by {
        if rx == 0 && ry == 0 {
            assert((s.end_x - s.x) * s.sx == 0);
            assert((s.end_y - s.y) * s.sy == 0);
            if s.sx != 0 {
                assert(s.end_x - s.x == 0) by (nonlinear_arith)
                    requires
                        (s.end_x - s.x) * s.sx == 0,
                        s.sx != 0,
                ;
            }
            if s.sy != 0 {
                assert(s.end_y - s.y == 0) by (nonlinear_arith)
                    requires
                        (s.end_y - s.y) * s.sy == 0,
                        s.sy != 0,
                ;
            }
        }
    }
    if steps_x(s) {
        assert(rx >= 1) by {
            if rx == 0 {
                assert(ry >= 1);
                assert(dx * ry >= dx) by (nonlinear_arith)
                    requires
                        ry >= 1,
                        dx >= 0,
                ;
                assert(dy * rx == 0) by (nonlinear_arith)
                    requires
                        rx == 0,
                ;
            }
        }
    }
    if steps_y(s) {
        assert(ry >= 1) by {
            if ry == 0 {
                assert(rx >= 1);
                assert(dy * rx >= dy) by (nonlinear_arith)
                    requires
                        rx >= 1,
                        dy >= 0,
                ;
                assert(dx * ry == 0) by (nonlinear_arith)
                    requires
                        ry == 0,
                ;
            }
        }
    }
    assert(steps_x(s) || steps_y(s)) by {
        if !steps_x(s) && !steps_y(s) {
            assert(dx == 0 && dy == 0);
            assert(rx == 0 && ry == 0);
        }
    }
    // the new remaining distances
    let rx2 = if steps_x(s) {
        rx - 1
    } else {
        rx
    };
    let ry2 = if steps_y(s) {
        ry - 1
    } else {
        ry
    };
    assert(rem_x(t) == rx2) by {
        if steps_x(s) {
            assert(s.sx != 0);
            assert((s.end_x - (s.x + s.sx)) * s.sx == (s.end_x - s.x) * s.sx - s.sx * s.sx)
                by (nonlinear_arith);
            assert(s.sx * s.sx == 1) by (nonlinear_arith)
                requires
                    -1 <= s.sx <= 1,
                    s.sx != 0,
            ;
        }
    }
    assert(rem_y(t) == ry2) by {
        if steps_y(s) {
            assert(s.sy != 0);
            assert((s.end_y - (s.y + s.sy)) * s.sy == (s.end_y - s.y) * s.sy - s.sy * s.sy)
                by (nonlinear_arith);
            assert(s.sy * s.sy == 1) by (nonlinear_arith)
                requires
                    -1 <= s.sy <= 1,
                    s.sy != 0,
            ;
        }
    }
    assert(t.err == dx - dy + dy * rx2 - dx * ry2) by {
        assert(dy * (rx - 1) == dy * rx - dy) by (nonlinear_arith);
        assert(dx * (ry - 1) == dx * ry - dx) by (nonlinear_arith);
    }
    // the new point stays between the old one and the end
    if steps_x(s) {
        assert(s.sx != 0);
        assert(s.end_x - s.x == s.sx * rx) by (nonlinear_arith)
            requires
                rx == (s.end_x - s.x) * s.sx,
                s.sx == 1 || s.sx == -1,
        ;
    }
    if steps_y(s) {
        assert(s.sy != 0);
        assert(s.end_y - s.y == s.sy * ry) by (nonlinear_arith)
            requires
                ry == (s.end_y - s.y) * s.sy,
                s.sy == 1 || s.sy == -1,
        ;
    }
}

/// Walking on from a state whose remaining distance is within the fuel
/// yields the same points whatever the extra fuel.
proof fn lemma_trace_fuel(s: LineState, fuel: nat)
    requires
        line_inv(s),
        rem_x(s) + rem_y(s) <= fuel,
    ensures
        at_end(line_trace_last(s, fuel)),
    decreases fuel,
{
    if !at_end(s) {
        lemma_step_inv(s);
        if fuel == 0 {
            assert(rem_x(s) >= 0 && rem_y(s) >= 0);
        } else {
            lemma_trace_fuel(line_step(s), (fuel - 1) as nat);
        }
    }
}

/// The state that the walk from `s` stops in with `fuel` steps at most.
pub open spec fn line_trace_last(s: LineState, fuel: nat) -> LineState
    decreases fuel,
{
    if fuel == 0 || at_end(s) {
        s
    } else {
        line_trace_last(line_step(s), (fuel - 1) as nat)
    }
}

/// A line's walk ends at its end point: the last point of `line_points` is `p2`.
pub proof fn law_line_ends_at_end(p1: (isize, isize), p2: (isize, isize))
    requires
        line_short(p1, p2),
    ensures
        line_points(p1, p2).last() == (p2.0 as int, p2.1 as int),
        line_points(p1, p2)[0] == (p1.0 as int, p1.1 as int),
{
    let s = line_start(p1, p2);
    lemma_start_inv(p1, p2);
    let fuel = (s.dx + s.dy) as nat;
    lemma_trace_last_point(s, fuel);
    lemma_trace_fuel(s, fuel);
    let pts = line_points(p1, p2);
    let tr = line_trace(s, fuel);
    assert(pts[0] == (p1.0 as int, p1.1 as int));
    if tr.len() == 0 {
        assert(pts.len() == 1);
    } else {
        assert(pts.last() == tr.last());
    }
}

/// The last point that the walk yields is the point of the state it stops in.
proof fn lemma_trace_last_point(s: LineState, fuel: nat)
    requires
        line_inv(s),
    ensures
        line_trace(s, fuel).len() > 0 ==> line_trace(s, fuel).last() == (
            line_trace_last(s, fuel).x,
            line_trace_last(s, fuel).y,
        ),
        line_trace(s, fuel).len() == 0 ==> line_trace_last(s, fuel) == s,
        line_trace_last(s, fuel).end_x == s.end_x,
        line_trace_last(s, fuel).end_y == s.end_y,
    decreases fuel,
{
    if fuel > 0 && !at_end(s) {
        lemma_step_inv(s);
        lemma_trace_last_point(line_step(s), (fuel - 1) as nat);
    }
}

/// Consecutive points of a line are distinct neighbours: they differ by at
/// most one on each axis.
pub proof fn law_line_steps_to_neighbours(p1: (isize, isize), p2: (isize, isize), i: int)
    requires
        line_short(p1, p2),
        0 <= i < line_points(p1, p2).len() - 1,
    ensures
        ({
            let pts = line_points(p1, p2);
            &&& abs(pts[i + 1].0 - pts[i].0) <= 1
            &&& abs(pts[i + 1].1 - pts[i].1) <= 1
            &&& pts[i + 1] != pts[i]
        }),
{
    let s = line_start(p1, p2);
    lemma_start_inv(p1, p2);
    lemma_trace_neighbours(s, (s.dx + s.dy) as nat, i);
}

proof fn lemma_trace_neighbours(s: LineState, fuel: nat, i: int)
    requires
        line_inv(s),
        0 <= i < line_trace(s, fuel).len(),
    ensures
        ({
            let pts = seq![(s.x, s.y)] + line_trace(s, fuel);
            &&& abs(pts[i + 1].0 - pts[i].0) <= 1
            &&& abs(pts[i + 1].1 - pts[i].1) <= 1
            &&& pts[i + 1] != pts[i]
        }),
    decreases fuel,
{
    lemma_step_inv(s);
    let t = line_step(s);
    let rest = line_trace(t, (fuel - 1) as nat);
    let pts = seq![(s.x, s.y)] + line_trace(s, fuel);
    let pts2 = seq![(t.x, t.y)] + rest;
    assert(line_trace(s, fuel) == pts2);
    if i > 0 {
        lemma_trace_neighbours(t, (fuel - 1) as nat, i - 1);
        assert(pts[i] == pts2[i - 1]);
        assert(pts[i + 1] == pts2[i]);
    } else {
        assert(pts[0] == (s.x, s.y));
        assert(pts[1] == (t.x, t.y));
    }
}

/// The walk's tightness: on a line that is wider than tall the error keeps
/// the walk stepping across at every step, on one that is taller than wide
/// it keeps it stepping down, and on a diagonal it stays at 0.
pub open spec fn line_tight(s: LineState) -> bool {
    &&& s.dx > s.dy ==> 2 * s.err > -s.dy
    &&& s.dy > s.dx ==> 2 * s.err < s.dx
    &&& s.dx == s.dy ==> s.err == 0
}

/// How many steps remain along the line's longer axis.
pub open spec fn line_major(s: LineState) -> int {
    if s.dx >= s.dy {
        rem_x(s)
    } else {
        rem_y(s)
    }
}

proof fn lemma_step_tight(s: LineState)
    requires
        line_inv(s),
        line_tight(s),
        !at_end(s),
    ensures
        line_tight(line_step(s)),
        line_major(line_step(s)) == line_major(s) - 1,
{
    lemma_step_inv(s);
    lemma_doubled(s.err);
    if s.dx == s.dy && s.dy == 0 {
        assert(rem_x(s) == 0 && rem_y(s) == 0);
    }
}

proof fn lemma_trace_len(s: LineState, fuel: nat)
    requires
        line_inv(s),
        line_tight(s),
        rem_x(s) + rem_y(s) <= fuel,
    ensures
        line_trace(s, fuel).len() == line_major(s),
    decreases fuel,
{
    if at_end(s) {
        assert((s.end_x - s.x) * s.sx == 0) by (nonlinear_arith)
            requires
                s.end_x - s.x == 0,
        ;
        assert((s.end_y - s.y) * s.sy == 0) by (nonlinear_arith)
            requires
                s.end_y - s.y == 0,
        ;
    } else {
        lemma_step_inv(s);
        lemma_step_tight(s);
        lemma_trace_len(line_step(s), (fuel - 1) as nat);
    }
}

/// A line has one point more than its longer extent: Bresenham's walk
/// steps along the longer axis at every step.
pub proof fn law_line_length(p1: (isize, isize), p2: (isize, isize))
    requires
        line_short(p1, p2),
    ensures
        line_points(p1, p2).len() == 1 + if abs(p2.0 - p1.0) >= abs(p2.1 - p1.1) {
            abs(p2.0 - p1.0)
        } else {
            abs(p2.1 - p1.1)
        },
{
    let s = line_start(p1, p2);
    lemma_start_inv(p1, p2);
    assert(line_tight(s));
    lemma_trace_len(s, (s.dx + s.dy) as nat);
}

/// How far point `q` is from the end of the walk `s`, counted in steps
/// along each axis.
pub open spec fn rem_at(s: LineState, q: (int, int)) -> int {
    (s.end_x - q.0) * s.sx + (s.end_y - q.1) * s.sy
}

/// Along a walk, every point is strictly closer to the end than the points before it.
proof fn lemma_trace_closer(s: LineState, fuel: nat)
    requires
        line_inv(s),
        rem_x(s) + rem_y(s) <= fuel,
    ensures
        ({
            let pts = seq![(s.x, s.y)] + line_trace(s, fuel);
            forall|a: int, b: int| 0 <= a < b < pts.len() ==> rem_at(s, #[trigger] pts[a]) > rem_at(s, #[trigger] pts[b])
        }),
    decreases fuel,
{
    let pts = seq![(s.x, s.y)] + line_trace(s, fuel);
    if !at_end(s) {
        lemma_step_inv(s);
        let t = line_step(s);
        let rest = line_trace(t, (fuel - 1) as nat);
        let pts2 = seq![(t.x, t.y)] + rest;
        lemma_trace_closer(t, (fuel - 1) as nat);
        assert(line_trace(s, fuel) == pts2);
        assert(rem_at(s, (s.x, s.y)) == rem_x(s) + rem_y(s));
        assert(rem_at(s, (t.x, t.y)) == rem_x(t) + rem_y(t));
        assert forall|q: (int, int)| rem_at(t, q) == rem_at(s, q) by {}
        assert forall|a: int, b: int| 0 <= a < b < pts.len() implies rem_at(s, #[trigger] pts[a]) > rem_at(
            s,
            #[trigger] pts[b],
        ) by {
            if a == 0 {
                assert(pts[b] == pts2[b - 1]);
                if b - 1 > 0 {
                    assert(rem_at(t, pts2[0]) > rem_at(t, pts2[b - 1]));
                }
            } else {
                assert(pts[a] == pts2[a - 1]);
                assert(pts[b] == pts2[b - 1]);
                assert(rem_at(t, pts2[a - 1]) > rem_at(t, pts2[b - 1]));
            }
        }
    } else {
        assert(pts.len() == 1);
    }
}

/// Painting distinct points of a view that lies inside the stride composites
/// the colour once over the pixel of each point of the view among them, and
/// leaves every other pixel as it was.
proof fn lemma_paint_points_at(s: Seq<u32>, view: CanvasView, pts: Seq<(int, int)>, c: u32, i: int)
    requires
        inside_stride(view),
        points_ok(view, pts, s.len() as int),
        forall|a: int, b: int| 0 <= a < b < pts.len() ==> #[trigger] pts[a] != #[trigger] pts[b],
        0 <= i < s.len(),
    ensures
        paint_points(s, view, pts, c).len() == s.len(),
        paint_points(s, view, pts, c)[i] == if in_view(view, view_coords(view, i)) && pts.contains(
            view_coords(view, i),
        ) {
            over(s[i], c)
        } else {
            s[i]
        },
    decreases pts.len(),
{
    let q = view_coords(view, i);
    if pts.len() > 0 {
        let p = pts[0];
        let rest = pts.drop_first();
        assert(point_ok(view, p, s.len() as int));
        let s1 = paint_point(s, view, p, c);
        if in_view(view, p) {
            lemma_paint_point_at(s, view, p, c, i);
        }
        assert(s1.len() == s.len());
        assert forall|k: int| 0 <= k < rest.len() implies point_ok(view, #[trigger] rest[k], s1.len() as int) by {
            assert(rest[k] == pts[k + 1]);
        }
        assert forall|a: int, b: int| 0 <= a < b < rest.len() implies #[trigger] rest[a] != #[trigger] rest[b] by {
            assert(rest[a] == pts[a + 1]);
            assert(rest[b] == pts[b + 1]);
        }
        lemma_paint_points_at(s1, view, rest, c, i);
        if rest.contains(q) {
            let k = choose|k: int| 0 <= k < rest.len() && rest[k] == q;
            assert(rest[k] == pts[k + 1]);
            assert(p != q);
            assert(pts.contains(q));
        }
        if pts.contains(q) && q != p {
            let k = choose|k: int| 0 <= k < pts.len() && pts[k] == q;
            assert(k > 0);
            assert(rest[k - 1] == q);
        }
        if q == p {
            assert(pts[0] == q);
            assert(!rest.contains(q)) by {
                if rest.contains(q) {
                    let k = choose|k: int| 0 <= k < rest.len() && rest[k] == q;
                    assert(rest[k] == pts[k + 1]);
                }
            }
        }
    }
}

/// Where the view lies inside the stride, drawing a line composites the
/// colour exactly once over the pixel of each point of the line that lies
/// in the view, and leaves every other pixel as it was.
pub proof fn law_line_marks_each_point_once(
    p1: (isize, isize),
    p2: (isize, isize),
    view: CanvasView,
    s: Seq<u32>,
    c: u32,
    i: int,
)
    requires
        line_short(p1, p2),
        inside_stride(view),
        points_ok(view, line_points(p1, p2), s.len() as int),
        0 <= i < s.len(),
    ensures
        paint_points(s, view, line_points(p1, p2), c)[i] == if in_view(view, view_coords(view, i))
            && line_points(p1, p2).contains(view_coords(view, i)) {
            over(s[i], c)
        } else {
            s[i]
        },
{
    let st = line_start(p1, p2);
    lemma_start_inv(p1, p2);
    lemma_trace_closer(st, (st.dx + st.dy) as nat);
    let pts = line_points(p1, p2);
    assert forall|a: int, b: int| 0 <= a < b < pts.len() implies #[trigger] pts[a] != #[trigger] pts[b] by {
        assert(rem_at(st, pts[a]) > rem_at(st, pts[b]));
    }
    lemma_paint_points_at(s, view, pts, c, i);
}

/// The walk's state after `n` calls of `next` from `s`: one step for each
/// call until it stands at its end, where `next` leaves it as it is.
pub open spec fn line_walk(s: LineState, n: nat) -> LineState
    decreases n,
{
    if n == 0 {
        s
    } else {
        let t = line_walk(s, (n - 1) as nat);
        if at_end(t) {
            t
        } else {
            line_step(t)
        }
    }
}

/// A walk stands at its end exactly when no steps remain along its longer axis.
proof fn lemma_end_iff_major_zero(s: LineState)
    requires
        line_inv(s),
        line_tight(s),
    ensures
        at_end(s) <==> line_major(s) == 0,
        line_major(s) >= 0,
{
    if at_end(s) {
        assert((s.end_x - s.x) * s.sx == 0) by (nonlinear_arith)
            requires
                s.end_x - s.x == 0,
        ;
        assert((s.end_y - s.y) * s.sy == 0) by (nonlinear_arith)
            requires
                s.end_y - s.y == 0,
        ;
    } else {
        lemma_step_inv(s);
        lemma_step_tight(s);
    }
}

/// After `n` calls of `next` on a short line, the walk keeps its invariant,
/// its end and directions, and has `max(dx, dy) - n` steps left, none once
/// `n` reaches `max(dx, dy)`.
proof fn lemma_walk(p1: (isize, isize), p2: (isize, isize), n: nat)
    requires
        line_short(p1, p2),
    ensures
        ({
            let s0 = line_start(p1, p2);
            let w = line_walk(s0, n);
            let m = line_major(s0);
            &&& line_inv(w)
            &&& line_tight(w)
            &&& w.end_x == s0.end_x && w.end_y == s0.end_y
            &&& w.sx == s0.sx && w.sy == s0.sy && w.dx == s0.dx && w.dy == s0.dy
            &&& line_major(w) == if n <= m {
                m - n
            } else {
                0
            }
            &&& at_end(w) <==> n >= m
        }),
    decreases n,
{
    let s0 = line_start(p1, p2);
    lemma_start_inv(p1, p2);
    assert(line_tight(s0));
    if n == 0 {
        lemma_end_iff_major_zero(s0);
    } else {
        lemma_walk(p1, p2, (n - 1) as nat);
        let t = line_walk(s0, (n - 1) as nat);
        lemma_end_iff_major_zero(t);
        if !at_end(t) {
            lemma_step_inv(t);
            lemma_step_tight(t);
            lemma_end_iff_major_zero(line_step(t));
        }
    }
}

/// After any number of calls, `next` can be called again: its precondition
/// holds of every state the walk from `Bresenham::new` passes through.
pub proof fn law_walk_next_callable(p1: (isize, isize), p2: (isize, isize), n: nat)
    requires
        line_short(p1, p2),
    ensures
        line_wf(line_walk(line_start(p1, p2), n)),
        step_fits(line_walk(line_start(p1, p2), n)),
{
    lemma_walk(p1, p2, n);
    let w = line_walk(line_start(p1, p2), n);
    if !at_end(w) {
        lemma_step_inv(w);
    }
}

/// Every call of `next` that does not stand at the end moves the point one
/// step towards `p2`: by 0 or the direction of `p2` on each axis, and not by
/// 0 on both.
pub proof fn law_walk_steps_towards_end(p1: (isize, isize), p2: (isize, isize), n: nat)
    requires
        line_short(p1, p2),
    ensures
        ({
            let w = line_walk(line_start(p1, p2), n);
            let t = line_step(w);
            !at_end(w) ==> {
                &&& t.x - w.x == 0 || t.x - w.x == sign(p2.0 - p1.0)
                &&& t.y - w.y == 0 || t.y - w.y == sign(p2.1 - p1.1)
                &&& t.x != w.x || t.y != w.y
            }
        }),
{
    lemma_walk(p1, p2, n);
    let w = line_walk(line_start(p1, p2), n);
    if !at_end(w) {
        lemma_step_inv(w);
    }
}

/// Calling `next` on the walk from `p1` to `p2` yields a point exactly
/// `max(|dx|, |dy|)` times, the last of them `p2`, and `None` on every
/// later call.
pub proof fn law_walk_count(p1: (isize, isize), p2: (isize, isize), n: nat)
    requires
        line_short(p1, p2),
    ensures
        ({
            let m = if abs(p2.0 - p1.0) >= abs(p2.1 - p1.1) {
                abs(p2.0 - p1.0)
            } else {
                abs(p2.1 - p1.1)
            };
            let w = line_walk(line_start(p1, p2), n);
            &&& !at_end(w) <==> n < m
            &&& n >= m ==> w.x == p2.0 && w.y == p2.1
        }),
{
    lemma_walk(p1, p2, n);
    lemma_start_inv(p1, p2);
}

/// The larger of the walk's two extents.
pub open spec fn line_longer(s: LineState) -> int {
    if s.dx >= s.dy {
        s.dx
    } else {
        s.dy
    }
}

/// Whether the walk's error keeps it within half a pixel of the ideal line,
/// measured along the line's shorter axis.
pub open spec fn line_close(s: LineState) -> bool {
    -line_longer(s) <= 2 * (s.err - s.dx + s.dy) <= line_longer(s)
}

/// Whether point `q` lies within half a pixel of the walk's ideal line:
/// twice its cross product with the line, taken from the line's start, is
/// at most the longer extent.
pub open spec fn near_line(s: LineState, q: (int, int)) -> bool {
    let (ex, ey) = (s.sx * s.dx, s.sy * s.dy);
    let cross = (q.0 - (s.end_x - ex)) * ey - (q.1 - (s.end_y - ey)) * ex;
    -line_longer(s) <= 2 * cross <= line_longer(s)
}

proof fn lemma_step_close(s: LineState)
    requires
        line_inv(s),
        line_close(s),
        !at_end(s),
    ensures
        line_close(line_step(s)),
{
    lemma_step_inv(s);
}

/// A walk whose error is close stands at a point near the line.
proof fn lemma_close_near(s: LineState)
    requires
        line_inv(s),
        line_close(s),
    ensures
        near_line(s, (s.x, s.y)),
{
    let (rx, ry) = (rem_x(s), rem_y(s));
    let (dx, dy, sx, sy) = (s.dx, s.dy, s.sx, s.sy);
    let k = dx * ry - dy * rx;
    assert(k == dx - dy - s.err);
    assert(s.x - (s.end_x - sx * dx) == sx * (dx - rx)) by (nonlinear_arith)
        requires
            rx == (s.end_x - s.x) * sx,
            -1 <= sx <= 1,
            sx == 0 ==> s.x == s.end_x,
    ;
    assert(s.y - (s.end_y - sy * dy) == sy * (dy - ry)) by (nonlinear_arith)
        requires
            ry == (s.end_y - s.y) * sy,
            -1 <= sy <= 1,
            sy == 0 ==> s.y == s.end_y,
    ;
    let (a, b) = (dx - rx, dy - ry);
    let cross = (s.x - (s.end_x - sx * dx)) * (sy * dy) - (s.y - (s.end_y - sy * dy)) * (sx * dx);
    assert(cross == (sx * a) * (sy * dy) - (sy * b) * (sx * dx));
    assert((sx * a) * (sy * dy) == (sx * sy) * (a * dy)) by (nonlinear_arith);
    assert((sy * b) * (sx * dx) == (sx * sy) * (b * dx)) by (nonlinear_arith);
    assert(a * dy - b * dx == k) by (nonlinear_arith)
        requires
            a == dx - rx,
            b == dy - ry,
            k == dx * ry - dy * rx,
    ;
    assert((sx * sy) * (a * dy) - (sx * sy) * (b * dx) == (sx * sy) * k) by (nonlinear_arith)
        requires
            a * dy - b * dx == k,
    ;
    assert(cross == sx * sy * k);
    assert(-line_longer(s) <= 2 * cross <= line_longer(s)) by (nonlinear_arith)
        requires
            cross == sx * sy * k,
            -1 <= sx <= 1,
            -1 <= sy <= 1,
            -line_longer(s) <= 2 * k <= line_longer(s),
    ;
}

/// Every point that the walk yields from a close state is near the line.
proof fn lemma_trace_near(s: LineState, fuel: nat, k: int)
    requires
        line_inv(s),
        line_close(s),
        0 <= k < line_trace(s, fuel).len(),
    ensures
        near_line(s, line_trace(s, fuel)[k]),
    decreases fuel,
{
    lemma_step_inv(s);
    lemma_step_close(s);
    let t = line_step(s);
    assert(line_longer(t) == line_longer(s));
    if k == 0 {
        lemma_close_near(t);
    } else {
        lemma_trace_near(t, (fuel - 1) as nat, k - 1);
    }
}

/// Every pixel of a line lies within half a pixel of the ideal line from
/// `p1` to `p2`, measured along the shorter axis: twice the cross product
/// of the pixel's offset from `p1` with `p2 - p1` is at most the longer
/// extent in size.
pub proof fn law_line_hugs_the_ideal_line(p1: (isize, isize), p2: (isize, isize), k: int)
    requires
        line_short(p1, p2),
        0 <= k < line_points(p1, p2).len(),
    ensures
        ({
            let (x, y) = line_points(p1, p2)[k];
            let (ex, ey) = (p2.0 - p1.0, p2.1 - p1.1);
            let longer = if abs(ex) >= abs(ey) {
                abs(ex)
            } else {
                abs(ey)
            };
            -longer <= 2 * ((x - p1.0) * ey - (y - p1.1) * ex) <= longer
        }),
{
    let s = line_start(p1, p2);
    lemma_start_inv(p1, p2);
    assert(s.sx * s.dx == p2.0 - p1.0) by {
        if p2.0 - p1.0 < 0 {
            assert(s.sx == -1);
        } else if p2.0 - p1.0 > 0 {
            assert(s.sx == 1);
        }
    }
    assert(s.sy * s.dy == p2.1 - p1.1) by {
        let ey = p2.1 - p1.1;
        assert(s.dy == abs(ey) && s.sy == sign(ey));
        if ey < 0 {
            assert(s.sy == -1 && s.dy == -ey);
        } else if ey > 0 {
            assert(s.sy == 1 && s.dy == ey);
        } else {
            assert(s.sy == 0);
        }
    }
    let fuel = (s.dx + s.dy) as nat;
    if k == 0 {
        assert(line_points(p1, p2)[0] == (p1.0 as int, p1.1 as int));
        assert((p1.0 - p1.0) * (p2.1 - p1.1) - (p1.1 - p1.1) * (p2.0 - p1.0) == 0) by (nonlinear_arith);
    } else {
        lemma_trace_near(s, fuel, k - 1);
        assert(line_points(p1, p2)[k] == line_trace(s, fuel)[k - 1]);
    }
}

impl Bresenham {
    /// The walk from `p1` to `p2`, standing at `p1`.
    pub fn new(p1: (isize, isize), p2: (isize, isize)) -> (r: Bresenham)
        requires
            line_defined(p1, p2),
        ensures
            r@ == line_start(p1, p2),
            line_wf(r@),
    {
        let ddx = p2.0 - p1.0;
        let ddy = p2.1 - p1.1;
        let adx: isize = if ddx < 0 {
            -ddx
        } else {
            ddx
        };
        let ady: isize = if ddy < 0 {
            -ddy
        } else {
            ddy
        };
        let sx: isize = if ddx < 0 {
            -1
        } else if ddx > 0 {
            1
        } else {
            0
        };
        let sy: isize = if ddy < 0 {
            -1
        } else if ddy > 0 {
            1
        } else {
            0
        };
        Bresenham {
            point: p1,
            dx: adx as usize,
            dy: ady as usize,
            sx,
            sy,
            err: adx - ady,
            end: p2,
        }
    }

    /// The point the walk stands at.
    pub fn point(&self) -> (p: (isize, isize))
        ensures
            p.0 == self@.x,
            p.1 == self@.y,
    {
        self.point
    }

    /// The next point of the walk, or `None` once it stands at its end:
    /// each call takes the walk from its state to the next state of
    /// `line_walk`.
    pub fn next(&mut self) -> (r: Option<(isize, isize)>)
        requires
            line_wf(old(self)@),
            step_fits(old(self)@),
        ensures
            at_end(old(self)@) ==> r is None && final(self)@ == old(self)@,
            !at_end(old(self)@) ==> final(self)@ == line_step(old(self)@) && r == Some(
                (final(self)@.x as isize, final(self)@.y as isize),
            ),
            line_wf(final(self)@),
    {
        if self.point.0 == self.end.0 && self.point.1 == self.end.1 {
            return None;
        }
        let e2 = self.err << 1u32;
        if e2 > -(self.dy as isize) {
            self.err -= self.dy as isize;
            self.point.0 += self.sx;
        }
        if e2 < self.dx as isize {
            self.err += self.dx as isize;
            self.point.1 += self.sy;
        }
        Some(self.point)
    }
}

/// Composites `colour` over each point of `pts` in turn.
pub open spec fn paint_points(s: Seq<u32>, view: CanvasView, pts: Seq<(int, int)>, colour: u32) -> Seq<u32>
    decreases pts.len(),
{
    if pts.len() == 0 {
        s
    } else {
        paint_points(paint_point(s, view, pts[0], colour), view, pts.drop_first(), colour)
    }
}

pub open spec fn points_ok(view: CanvasView, pts: Seq<(int, int)>, len: int) -> bool {
    forall|i: int| 0 <= i < pts.len() ==> point_ok(view, #[trigger] pts[i], len)
}

impl CanvasView {
    /// Composites `colour` over point `p` (in view coordinates) if it lies in the view.
    fn line_point(&self, canvas: &mut [u32], p: (isize, isize), colour: u32)
        requires
            self.dims_fit(),
            point_ok(*self, (p.0 as int, p.1 as int), old(canvas)@.len() as int),
        ensures
            final(canvas)@ == paint_point(old(canvas)@, *self, (p.0 as int, p.1 as int), colour),
    {
        if p.0 >= 0 && p.0 < self.w as isize && p.1 >= 0 && p.1 < self.h as isize {
            let i = pixel_offset(p.0 + self.offset.0, p.1 + self.offset.1, self.stride, canvas.len());
            let mut px = canvas[i];
            apply_argb(&mut px, colour);
            canvas[i] = px;
        }
    }

    /// Composites `colour` over each point of the line from `p1` to `p2` (in
    /// view coordinates) that lies in the view: first `p1`, then each point
    /// of Bresenham's walk up to and including `p2`.
    pub fn add_line(&self, canvas: &mut [u32], p1: (isize, isize), p2: (isize, isize), colour: u32)
        requires
            self.dims_fit(),
            line_short(p1, p2),
            points_ok(*self, line_points(p1, p2), old(canvas)@.len() as int),
        ensures
            final(canvas)@ == paint_points(old(canvas)@, *self, line_points(p1, p2), colour),
    {
        let ghost start = canvas@;
        let ghost len = canvas@.len() as int;
        let ghost s0 = line_start(p1, p2);
        let ghost target = paint_points(start, *self, line_points(p1, p2), colour);
        let ghost mut fuel: nat = (s0.dx + s0.dy) as nat;
        let mut bruh = Bresenham::new(p1, p2);
        proof {
            lemma_start_inv(p1, p2);
            assert(point_ok(*self, line_points(p1, p2)[0], len));
            assert(line_points(p1, p2).drop_first() =~= line_trace(s0, fuel));
        }
        self.line_point(canvas, bruh.point, colour);
        proof {
            assert forall|i: int| 0 <= i < line_trace(s0, fuel).len() implies point_ok(
                *self,
                #[trigger] line_trace(s0, fuel)[i],
                len,
            ) by {
                assert(line_trace(s0, fuel)[i] == line_points(p1, p2)[i + 1]);
            }
        }
        loop
            invariant
                self.dims_fit(),
                line_inv(bruh@),
                rem_x(bruh@) + rem_y(bruh@) <= fuel,
                canvas@.len() == len,
                points_ok(*self, line_trace(bruh@, fuel), len),
                paint_points(canvas@, *self, line_trace(bruh@, fuel), colour) == target,
            ensures
                canvas@ == target,
            decreases rem_x(bruh@) + rem_y(bruh@),
        {
            let ghost before = bruh@;
            proof {
                if !at_end(before) {
                    lemma_step_inv(before);
                }
            }
            match bruh.next() {
                None => {
                    break;
                },
                Some(point) => {
                    proof {
                        assert(fuel > 0);
                        let t = line_step(before);
                        let rest = line_trace(t, (fuel - 1) as nat);
                        assert(line_trace(before, fuel) == seq![(t.x, t.y)] + rest);
                        assert(point_ok(*self, line_trace(before, fuel)[0], len));
                        assert(line_trace(before, fuel).drop_first() =~= rest);
                        assert forall|i: int| 0 <= i < rest.len() implies point_ok(
                            *self,
                            #[trigger] rest[i],
                            len,
                        ) by {
                            assert(rest[i] == line_trace(before, fuel)[i + 1]);
                        }
                    }
                    self.line_point(canvas, point, colour);
                    proof {
                        fuel = (fuel - 1) as nat;
                    }
                },
            }
        }
    }
}

} // verus!
