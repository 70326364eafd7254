//! The model of drawing: a canvas is a sequence of pixels laid out in rows
//! of `stride` pixels, and a drawing operation visits the pixels of a
//! rectangle row by row, left to right, rewriting those it covers.
use vstd::prelude::*;
use crate::helpers::over;

verus! {

/// Where pixel `(x, y)` lies in a canvas whose rows are `stride` pixels apart.
pub open spec fn pixel_index(x: int, y: int, stride: int) -> int {
    x + y * stride
}

/// Whether the drawing code can reach pixel `(x, y)` of a canvas of `len`
/// pixels: its index, computed in `usize`, neither overflows nor falls
/// outside the canvas. (With a stride of 0 the row does not matter.)
pub open spec fn pixel_ok(x: int, y: int, stride: int, len: int) -> bool {
    &&& 0 <= x
    &&& (0 <= y || stride == 0)
    &&& 0 <= pixel_index(x, y, stride) < len
}

/// The canvas after rewriting pixel `(x, y)` with `shade`, if `covers` takes it.
pub open spec fn paint_at(
    s: Seq<u32>,
    stride: int,
    x: int,
    y: int,
    covers: spec_fn(int, int) -> bool,
    shade: spec_fn(int, int, u32) -> u32,
) -> Seq<u32> {
    if covers(x, y) {
        let i = pixel_index(x, y, stride);
        s.update(i, shade(x, y, s[i]))
    } else {
        s
    }
}

/// The canvas after visiting pixels `x0 .. x1` of row `y`, left to right.
pub open spec fn paint_span(
    s: Seq<u32>,
    stride: int,
    y: int,
    x0: int,
    x1: int,
    covers: spec_fn(int, int) -> bool,
    shade: spec_fn(int, int, u32) -> u32,
) -> Seq<u32>
    decreases x1 - x0,
{
    if x1 <= x0 {
        s
    } else {
        paint_at(paint_span(s, stride, y, x0, x1 - 1, covers, shade), stride, x1 - 1, y, covers, shade)
    }
}

/// The canvas after visiting rows `y0 .. y1`, top to bottom, each over `x0 .. x1`.
pub open spec fn paint_area(
    s: Seq<u32>,
    stride: int,
    x0: int,
    x1: int,
    y0: int,
    y1: int,
    covers: spec_fn(int, int) -> bool,
    shade: spec_fn(int, int, u32) -> u32,
) -> Seq<u32>
    decreases y1 - y0,
{
    if y1 <= y0 {
        s
    } else {
        paint_span(
            paint_area(s, stride, x0, x1, y0, y1 - 1, covers, shade),
            stride,
            y1 - 1,
            x0,
            x1,
            covers,
            shade,
        )
    }
}

/// Whether every covered pixel of row `y` over `x0 .. x1` can be reached.
pub open spec fn span_ok(
    len: int,
    stride: int,
    y: int,
    x0: int,
    x1: int,
    covers: spec_fn(int, int) -> bool,
) -> bool {
    forall|x: int| x0 <= x < x1 && #[trigger] covers(x, y) ==> pixel_ok(x, y, stride, len)
}

/// Whether every covered pixel of the rectangle can be reached.
pub open spec fn area_ok(
    len: int,
    stride: int,
    x0: int,
    x1: int,
    y0: int,
    y1: int,
    covers: spec_fn(int, int) -> bool,
) -> bool {
    forall|x: int, y: int|
        x0 <= x < x1 && y0 <= y < y1 && #[trigger] covers(x, y) ==> pixel_ok(x, y, stride, len)
}

/// Covers every pixel.
pub open spec fn everywhere() -> spec_fn(int, int) -> bool {
    |x: int, y: int| true
}

/// Composites `colour` over each pixel it is given.
pub open spec fn blend_shade(colour: u32) -> spec_fn(int, int, u32) -> u32 {
    |x: int, y: int, old: u32| over(old, colour)
}

/// Overwrites each pixel it is given with `colour`.
pub open spec fn set_shade(colour: u32) -> spec_fn(int, int, u32) -> u32 {
    |x: int, y: int, old: u32| colour
}

/// Whether canvas index `i`, read as a column and a row of a canvas of
/// stride `stride`, is a covered pixel of the rectangle.
pub open spec fn covered_at(
    i: int,
    stride: int,
    x0: int,
    x1: int,
    y0: int,
    y1: int,
    covers: spec_fn(int, int) -> bool,
) -> bool {
    &&& x0 <= i % stride < x1
    &&& y0 <= i / stride < y1
    &&& covers(i % stride, i / stride)
}

pub proof fn lemma_paint_span_len(
    s: Seq<u32>,
    stride: int,
    y: int,
    x0: int,
    x1: int,
    covers: spec_fn(int, int) -> bool,
    shade: spec_fn(int, int, u32) -> u32,
)
    requires
        span_ok(s.len() as int, stride, y, x0, x1, covers),
    ensures
        paint_span(s, stride, y, x0, x1, covers, shade).len() == s.len(),
    decreases x1 - x0,
{
    if x1 > x0 {
        lemma_paint_span_len(s, stride, y, x0, x1 - 1, covers, shade);
        if covers(x1 - 1, y) {
            assert(x0 <= x1 - 1 < x1);
        }
    }
}

pub proof fn lemma_paint_area_len(
    s: Seq<u32>,
    stride: int,
    x0: int,
    x1: int,
    y0: int,
    y1: int,
    covers: spec_fn(int, int) -> bool,
    shade: spec_fn(int, int, u32) -> u32,
)
    requires
        area_ok(s.len() as int, stride, x0, x1, y0, y1, covers),
    ensures
        paint_area(s, stride, x0, x1, y0, y1, covers, shade).len() == s.len(),
    decreases y1 - y0,
{
    if y1 > y0 {
        lemma_paint_area_len(s, stride, x0, x1, y0, y1 - 1, covers, shade);
        let s1 = paint_area(s, stride, x0, x1, y0, y1 - 1, covers, shade);
        assert forall|x: int| x0 <= x < x1 && #[trigger] covers(x, y1 - 1) implies pixel_ok(
            x,
            y1 - 1,
            stride,
            s1.len() as int,
        ) by {
            assert(y0 <= y1 - 1 < y1);
        }
        lemma_paint_span_len(s1, stride, y1 - 1, x0, x1, covers, shade);
    }
}

/// For a pixel `(x, y)` with `0 <= x < stride` and `y >= 0`, the column and
/// row read back from its index are `x` and `y`.
pub proof fn lemma_index_coords(x: int, y: int, stride: int)
    requires
        0 <= x < stride,
        0 <= y,
    ensures
        pixel_index(x, y, stride) % stride == x,
        pixel_index(x, y, stride) / stride == y,
{
    vstd::arithmetic::div_mod::lemma_fundamental_div_mod_converse(
        pixel_index(x, y, stride),
        stride,
        y,
        x,
    );
}

/// An index is the index of its column and row.
pub proof fn lemma_coords_index(i: int, stride: int)
    requires
        stride > 0,
        0 <= i,
    ensures
        pixel_index(i % stride, i / stride, stride) == i,
        0 <= i % stride < stride,
        0 <= i / stride,
{
    vstd::arithmetic::div_mod::lemma_fundamental_div_mod(i, stride);
    vstd::arithmetic::div_mod::lemma_div_pos_is_pos(i, stride);
    assert(i / stride * stride == stride * (i / stride)) by (nonlinear_arith);
}

/// Within one row that lies inside the stride, each covered pixel is
/// rewritten once from its value before, and nothing else changes.
pub proof fn lemma_paint_span_pointwise(
    s: Seq<u32>,
    stride: int,
    y: int,
    x0: int,
    x1: int,
    covers: spec_fn(int, int) -> bool,
    shade: spec_fn(int, int, u32) -> u32,
    i: int,
)
    requires
        stride > 0,
        0 <= x0,
        x1 <= stride,
        span_ok(s.len() as int, stride, y, x0, x1, covers),
        0 <= i < s.len(),
    ensures
        paint_span(s, stride, y, x0, x1, covers, shade)[i] == if covered_at(
            i,
            stride,
            x0,
            x1,
            y,
            y + 1,
            covers,
        ) {
            shade(i % stride, y, s[i])
        } else {
            s[i]
        },
    decreases x1 - x0,
{
    lemma_coords_index(i, stride);
    if x1 > x0 {
        let x = x1 - 1;
        lemma_paint_span_len(s, stride, y, x0, x, covers, shade);
        lemma_paint_span_pointwise(s, stride, y, x0, x, covers, shade, i);
        if covers(x, y) {
            assert(x0 <= x < x1);
            assert(pixel_ok(x, y, stride, s.len() as int));
            lemma_index_coords(x, y, stride);
            let idx = pixel_index(x, y, stride);
            if i == idx {
                lemma_paint_span_pointwise(s, stride, y, x0, x, covers, shade, idx);
            } else {
                if i % stride == x && i / stride == y {
                    assert(i == idx);
                }
            }
        }
    }
}

/// Over a rectangle that lies inside the stride, each covered pixel is
/// rewritten once from its value before, and nothing else changes.
pub proof fn lemma_paint_area_pointwise(
    s: Seq<u32>,
    stride: int,
    x0: int,
    x1: int,
    y0: int,
    y1: int,
    covers: spec_fn(int, int) -> bool,
    shade: spec_fn(int, int, u32) -> u32,
    i: int,
)
    requires
        stride > 0,
        0 <= x0,
        x1 <= stride,
        area_ok(s.len() as int, stride, x0, x1, y0, y1, covers),
        0 <= i < s.len(),
    ensures
        paint_area(s, stride, x0, x1, y0, y1, covers, shade)[i] == if covered_at(
            i,
            stride,
            x0,
            x1,
            y0,
            y1,
            covers,
        ) {
            shade(i % stride, i / stride, s[i])
        } else {
            s[i]
        },
    decreases y1 - y0,
{
    if y1 > y0 {
        let y = y1 - 1;
        let s1 = paint_area(s, stride, x0, x1, y0, y, covers, shade);
        lemma_paint_area_len(s, stride, x0, x1, y0, y, covers, shade);
        lemma_paint_area_pointwise(s, stride, x0, x1, y0, y, covers, shade, i);
        assert forall|x: int| x0 <= x < x1 && #[trigger] covers(x, y) implies pixel_ok(
            x,
            y,
            stride,
            s1.len() as int,
        ) by {
            assert(y0 <= y < y1);
        }
        lemma_paint_span_pointwise(s1, stride, y, x0, x1, covers, shade, i);
    }
}

} // verus!
