//! Random sprites: blocks of pixels coloured at random from a palette,
//! optionally mirrored across their vertical and horizontal middles.
use vstd::prelude::*;
use crate::{CanvasView, fits_isize, normalise_defined, normalise_rect, normalised};
use crate::helpers::{apply_argb, over};
use crate::paint::{pixel_index, pixel_ok};

verus! {

/// Where a sprite lies in the canvas and how it is mirrored: its top left
/// pixel `(x0, y0)`, its size `w` by `h`, and whether it mirrors its left
/// half onto its right (`vsym`) and its top half onto its bottom (`hsym`).
pub struct SpriteGeom {
    pub x0: int,
    pub y0: int,
    pub w: int,
    pub h: int,
    pub vsym: bool,
    pub hsym: bool,
    pub stride: int,
}

impl SpriteGeom {
    /// How many columns are coloured at random: half the width, rounded
    /// up, when mirrored, else the whole width.
    pub open spec fn cols(self) -> int {
        if self.vsym {
            (self.w + 1) / 2
        } else {
            self.w
        }
    }

    /// How many rows are coloured at random.
    pub open spec fn rows(self) -> int {
        if self.hsym {
            (self.h + 1) / 2
        } else {
            self.h
        }
    }

    /// How many random colours the sprite takes: one for each cell.
    pub open spec fn cells(self) -> int {
        self.cols() * self.rows()
    }

    /// The sprite's last column.
    pub open spec fn x_end(self) -> int {
        self.x0 + self.w - 1
    }

    /// The sprite's last row.
    pub open spec fn y_end(self) -> int {
        self.y0 + self.h - 1
    }

    /// The pixels that cell `(i, j)` colours: `(x0 + i, y0 + j)`, its mirror
    /// `(x_end - i, y0 + j)` when `vsym`, and when `hsym` the mirrors of
    /// both in the bottom rows, in the order the sprite visits them.
    pub open spec fn cell_pixels(self, i: int, j: int) -> Seq<(int, int)> {
        let (lx, rx, ty, by) = (self.x0 + i, self.x_end() - i, self.y0 + j, self.y_end() - j);
        let top = if self.vsym {
            seq![(lx, ty), (rx, ty)]
        } else {
            seq![(lx, ty)]
        };
        let bottom = if !self.hsym {
            Seq::empty()
        } else if self.vsym {
            seq![(lx, by), (rx, by)]
        } else {
            seq![(lx, by)]
        };
        top + bottom
    }
}

/// Composites `colour` over each pixel of `pts` in turn.
pub open spec fn blend_pixels(s: Seq<u32>, stride: int, pts: Seq<(int, int)>, colour: u32) -> Seq<u32>
    decreases pts.len(),
{
    if pts.len() == 0 {
        s
    } else {
        let p = pts.last();
        let s1 = blend_pixels(s, stride, pts.drop_last(), colour);
        let i = pixel_index(p.0, p.1, stride);
        s1.update(i, over(s1[i], colour))
    }
}

/// The first `i` cells of row `j`, coloured from the palette by the picks.
pub open spec fn sprite_cells(
    s: Seq<u32>,
    g: SpriteGeom,
    cmap: Seq<u32>,
    picks: Seq<usize>,
    j: int,
    i: int,
) -> Seq<u32>
    decreases i,
{
    if i <= 0 {
        s
    } else {
        let c = cmap[picks[j * g.cols() + i - 1] as int];
        blend_pixels(sprite_cells(s, g, cmap, picks, j, i - 1), g.stride, g.cell_pixels(i - 1, j), c)
    }
}

/// The first `j` rows of cells.
pub open spec fn sprite_rows(s: Seq<u32>, g: SpriteGeom, cmap: Seq<u32>, picks: Seq<usize>, j: int) -> Seq<u32>
    decreases j,
{
    if j <= 0 {
        s
    } else {
        sprite_cells(sprite_rows(s, g, cmap, picks, j - 1), g, cmap, picks, j - 1, g.cols())
    }
}

/// The whole sprite: every row of cells.
pub open spec fn sprite_paint(s: Seq<u32>, g: SpriteGeom, cmap: Seq<u32>, picks: Seq<usize>) -> Seq<u32> {
    sprite_rows(s, g, cmap, picks, g.rows())
}

/// Whether the picks give one palette index for each cell.
pub open spec fn picks_fit(picks: Seq<usize>, g: SpriteGeom, cmap_len: int) -> bool {
    &&& picks.len() == g.cells()
    &&& forall|k: int| 0 <= k < picks.len() ==> #[trigger] picks[k] < cmap_len
}

/// Whether every pixel that the sprite colours can be reached.
pub open spec fn sprite_pixels_ok(g: SpriteGeom, len: int) -> bool {
    forall|i: int, j: int, k: int|
        0 <= i < g.cols() && 0 <= j < g.rows() && 0 <= k < g.cell_pixels(i, j).len() ==> pixel_ok(
            #[trigger] g.cell_pixels(i, j)[k].0,
            g.cell_pixels(i, j)[k].1,
            g.stride,
            len,
        )
}

/// Composites `colour` over the first `m + 1` pixels of `pts`: the first `m`, then pixel `m`.
proof fn lemma_blend_pixels_push(s: Seq<u32>, stride: int, pts: Seq<(int, int)>, m: int, colour: u32)
    requires
        0 <= m < pts.len(),
    ensures
        blend_pixels(s, stride, pts.subrange(0, m + 1), colour) == ({
            let s1 = blend_pixels(s, stride, pts.subrange(0, m), colour);
            let i = pixel_index(pts[m].0, pts[m].1, stride);
            s1.update(i, over(s1[i], colour))
        }),
        m == 0 ==> blend_pixels(s, stride, pts.subrange(0, m), colour) == s,
{
    assert(pts.subrange(0, m + 1).drop_last() =~= pts.subrange(0, m));
    assert(pts.subrange(0, m + 1).last() == pts[m]);
}

proof fn lemma_sprite_counts(g: SpriteGeom)
    requires
        g.w >= 1,
        g.h >= 1,
    ensures
        1 <= g.cols() <= g.w,
        1 <= g.rows() <= g.h,
        g.cells() >= 1,
{
    assert(g.cols() * g.rows() >= 1) by (nonlinear_arith)
        requires
            g.cols() >= 1,
            g.rows() >= 1,
    ;
}

proof fn lemma_cell_index(g: SpriteGeom, i: int, j: int)
    requires
        0 <= i < g.cols(),
        0 <= j < g.rows(),
    ensures
        0 <= j * g.cols() + i < g.cells(),
{
    assert(0 <= j * g.cols() + i < g.cols() * g.rows()) by (nonlinear_arith)
        requires
            0 <= i < g.cols(),
            0 <= j < g.rows(),
    ;
}

proof fn lemma_parity(v: u32)
    ensures
        (v & 1 == 1) == (v % 2 == 1),
        (v & 1 == 0) == (v % 2 == 0),
{
    assert((v & 1u32 == 1u32) == (v % 2u32 == 1u32)) by (bit_vector);
    assert((v & 1u32 == 0u32) == (v % 2u32 == 0u32)) by (bit_vector);
}

/// The sprite's test for the end of a row holds exactly at the last cell of the row.
proof fn lemma_row_end(g: SpriteGeom, i: int)
    requires
        g.w >= 1,
        g.x0 >= 0,
        0 <= i < g.cols(),
    ensures
        ({
            let lx = g.x0 + i;
            let rx = if g.vsym {
                g.x_end() - i
            } else {
                g.x_end()
            };
            &&& ((g.vsym && ((g.w % 2 == 1 && lx == rx) || (g.w % 2 == 0 && lx + 1 == rx))) || (!g.vsym
                && lx == rx)) == (i == g.cols() - 1)
            &&& lx < rx ==> lx + 1 <= g.x_end()
            &&& g.vsym && g.w % 2 == 0 ==> lx + 1 <= rx
            &&& g.vsym && i < g.cols() - 1 ==> rx >= 1
        }),
{
    if g.vsym {
        assert(g.cols() == (g.w + 1) / 2);
        if g.w % 2 == 1 {
            assert(g.w == 2 * g.cols() - 1);
        } else {
            assert(g.w == 2 * g.cols());
        }
    }
}

/// The sprite's test for the end of the rows holds exactly at the last row.
proof fn lemma_col_end(g: SpriteGeom, j: int)
    requires
        g.h >= 1,
        g.y0 >= 0,
        0 <= j < g.rows(),
    ensures
        ({
            let ty = g.y0 + j;
            let by = if g.hsym {
                g.y_end() - j
            } else {
                g.y_end()
            };
            &&& ((g.hsym && ((g.h % 2 == 1 && ty == by) || (g.h % 2 == 0 && ty + 1 == by))) || (!g.hsym
                && ty == by)) == (j == g.rows() - 1)
            &&& g.hsym && g.h % 2 == 0 ==> ty + 1 <= by
            &&& j < g.rows() - 1 ==> ty + 1 <= g.y_end()
            &&& g.hsym && j < g.rows() - 1 ==> by >= 1
        }),
{
    if g.hsym {
        assert(g.rows() == (g.h + 1) / 2);
        if g.h % 2 == 1 {
            assert(g.h == 2 * g.rows() - 1);
        } else {
            assert(g.h == 2 * g.rows());
        }
    }
}

impl CanvasView {
    /// Where the sprite at `at` (in view coordinates) lies: its corner moved
    /// by the view's offset and read as a `u32`, as the drawing code reads it.
    pub open spec fn sprite_geom(&self, at: (isize, isize), spritew: u32, spriteh: u32, vsym: bool, hsym: bool) -> SpriteGeom {
        SpriteGeom {
            x0: ((at.0 + self.offset.0) as u32) as int,
            y0: ((at.1 + self.offset.1) as u32) as int,
            w: spritew as int,
            h: spriteh as int,
            vsym,
            hsym,
            stride: self.stride as int,
        }
    }

    /// Whether `add_sprite` is drawn at all: the sprite's rectangle meets the view.
    pub open spec fn sprite_drawn(&self, at: (isize, isize), spritew: u32, spriteh: u32) -> bool {
        normalised(*self, at, spritew as int, spriteh as int) is Some
    }

    /// Whether `add_sprite` is defined: its sizes are values of `isize`, the
    /// clipping is defined, and where the sprite is drawn its corner in
    /// canvas coordinates is computed without overflow, its far edges are
    /// values of `u32`, the palette is not empty and every pixel it colours
    /// can be reached.
    pub open spec fn sprite_ok(
        &self,
        at: (isize, isize),
        spritew: u32,
        spriteh: u32,
        cmap_len: int,
        vsym: bool,
        hsym: bool,
        len: int,
    ) -> bool {
        let g = self.sprite_geom(at, spritew, spriteh, vsym, hsym);
        &&& spritew as int <= isize::MAX
        &&& spriteh as int <= isize::MAX
        &&& normalise_defined(*self, at, spritew as int, spriteh as int)
        &&& self.sprite_drawn(at, spritew, spriteh) ==> {
            &&& fits_isize(at.0 + self.offset.0)
            &&& fits_isize(at.1 + self.offset.1)
            &&& g.x0 + g.w <= u32::MAX
            &&& g.y0 + g.h <= u32::MAX
            &&& cmap_len > 0
            &&& sprite_pixels_ok(g, len)
        }
    }

    /// Draws a sprite of `spritew` by `spriteh` pixels at `at` (in view
    /// coordinates), with the colours of its cells chosen by `picks` from
    /// the palette `cmap`, one pick per cell, in order.
    ///
    /// Nothing is drawn unless the sprite's rectangle meets the view (it is
    /// not clipped to it). Cells are visited row by row, left to right; each
    /// composites its colour over its pixel and the mirrors of it that
    /// `vsym` and `hsym` ask for (a pixel on a mirror axis is composited
    /// twice).
    pub fn add_sprite_with(
        &self,
        canvas: &mut [u32],
        at: (isize, isize),
        spritew: u32,
        spriteh: u32,
        cmap: &[u32],
        vsym: bool,
        hsym: bool,
        picks: &[usize],
    )
        requires
            self.dims_fit(),
            self.sprite_ok(at, spritew, spriteh, cmap@.len() as int, vsym, hsym, old(canvas)@.len() as int),
            self.sprite_drawn(at, spritew, spriteh) ==> picks_fit(
                picks@,
                self.sprite_geom(at, spritew, spriteh, vsym, hsym),
                cmap@.len() as int,
            ),
        ensures
            final(canvas)@ == if self.sprite_drawn(at, spritew, spriteh) {
                sprite_paint(old(canvas)@, self.sprite_geom(at, spritew, spriteh, vsym, hsym), cmap@, picks@)
            } else {
                old(canvas)@
            },
    {
        if normalise_rect(self, at, spritew as isize, spriteh as isize).is_some() {
            let ghost g = self.sprite_geom(at, spritew, spriteh, vsym, hsym);
            let ghost start = canvas@;
            let ghost len = canvas@.len() as int;
            let x0 = #[verifier::truncate] ((at.0 + self.offset.0) as u32);
            let y0 = #[verifier::truncate] ((at.1 + self.offset.1) as u32);
            let (startx, endx) = (x0, x0 + spritew - 1);
            let (starty, endy) = (y0, y0 + spriteh - 1);
            let (mut lx, mut rx) = (startx, endx);
            let (mut ty, mut by) = (starty, endy);
            let mut n: usize = 0;
            let ghost mut i: int = 0;
            let ghost mut j: int = 0;
            proof {
                lemma_sprite_counts(g);
            }
            loop
                invariant_except_break
                    canvas@ == sprite_cells(sprite_rows(start, g, cmap@, picks@, j), g, cmap@, picks@, j, i),
                invariant
                    g == self.sprite_geom(at, spritew, spriteh, vsym, hsym),
                    g.w >= 1 && g.h >= 1,
                    1 <= g.cols() <= g.w,
                    1 <= g.rows() <= g.h,
                    0 <= i < g.cols(),
                    0 <= j < g.rows(),
                    startx == g.x0,
                    starty == g.y0,
                    endx == g.x_end(),
                    endy == g.y_end(),
                    g.x0 + g.w <= u32::MAX,
                    g.y0 + g.h <= u32::MAX,
                    lx == g.x0 + i,
                    rx == if vsym {
                        g.x_end() - i
                    } else {
                        g.x_end()
                    },
                    ty == g.y0 + j,
                    by == if hsym {
                        g.y_end() - j
                    } else {
                        g.y_end()
                    },
                    n == j * g.cols() + i,
                    picks@.len() == g.cells(),
                    forall|k: int| 0 <= k < picks@.len() ==> #[trigger] picks@[k] < cmap@.len(),
                    sprite_pixels_ok(g, len),
                    canvas@.len() == len,
                    start.len() == len,
                ensures
                    canvas@ == sprite_rows(start, g, cmap@, picks@, g.rows()),
                decreases g.cells() - n,
            {
                proof {
                    lemma_cell_index(g, i, j);
                }
                let c = cmap[picks[n]];
                paint_cell(canvas, lx, rx, ty, by, self.stride, c, vsym, hsym, Ghost(g), Ghost(i), Ghost(j), Ghost(len));
                proof {
                    assert(canvas@ == sprite_cells(sprite_rows(start, g, cmap@, picks@, j), g, cmap@, picks@, j, i + 1));
                    lemma_parity(spritew);
                    lemma_parity(spriteh);
                    lemma_row_end(g, i);
                    lemma_col_end(g, j);
                }
                if (vsym && ((spritew & 1 == 1 && lx == rx) || (spritew & 1 == 0 && lx + 1 == rx))) || (!vsym && lx
                    == rx) {
                    if (hsym && ((spriteh & 1 == 1 && ty == by) || (spriteh & 1 == 0 && ty + 1 == by))) || (!hsym
                        && ty == by) {
                        proof {
                            assert(canvas@ == sprite_rows(start, g, cmap@, picks@, j + 1));
                        }
                        break;
                    }
                    proof {
                        assert(n + 1 == (j + 1) * g.cols()) by (nonlinear_arith)
                            requires
                                n == j * g.cols() + g.cols() - 1,
                        ;
                        j = j + 1;
                        i = 0;
                    }
                    lx = startx;
                    ty += 1;
                    if vsym {
                        rx = endx;
                    }
                    if hsym {
                        by -= 1;
                    }
                } else {
                    proof {
                        i = i + 1;
                    }
                    lx += 1;
                    if vsym {
                        rx -= 1;
                    }
                }
                n += 1;
            }
        }
    }
}

/// Composites `c` over the pixels of cell `(i, j)`: `(lx, ty)`, then
/// `(rx, ty)` when `vsym`, then `(lx, by)` and, when `vsym`, `(rx, by)`
/// when `hsym`.
fn paint_cell(
    canvas: &mut [u32],
    lx: u32,
    rx: u32,
    ty: u32,
    by: u32,
    stride: u32,
    c: u32,
    vsym: bool,
    hsym: bool,
    Ghost(g): Ghost<SpriteGeom>,
    Ghost(i): Ghost<int>,
    Ghost(j): Ghost<int>,
    Ghost(len): Ghost<int>,
)
    requires
        g.vsym == vsym,
        g.hsym == hsym,
        g.stride == stride,
        0 <= i < g.cols(),
        0 <= j < g.rows(),
        lx == g.x0 + i,
        rx == if vsym {
            g.x_end() - i
        } else {
            g.x_end()
        },
        ty == g.y0 + j,
        by == if hsym {
            g.y_end() - j
        } else {
            g.y_end()
        },
        sprite_pixels_ok(g, len),
        old(canvas)@.len() == len,
    ensures
        final(canvas)@ == blend_pixels(old(canvas)@, g.stride, g.cell_pixels(i, j), c),
        final(canvas)@.len() == len,
{
    let ghost s0 = canvas@;
    let ghost cell = g.cell_pixels(i, j);
    proof {
        assert(cell[0] == (lx as int, ty as int));
        assert(pixel_ok(cell[0].0, cell[0].1, g.stride, len));
        lemma_blend_pixels_push(s0, g.stride, cell, 0, c);
    }
    sprite_pixel(canvas, lx, ty, stride, c);
    if vsym {
        proof {
            assert(cell[1] == (rx as int, ty as int));
            assert(pixel_ok(cell[1].0, cell[1].1, g.stride, len));
            lemma_blend_pixels_push(s0, g.stride, cell, 1, c);
        }
        sprite_pixel(canvas, rx, ty, stride, c);
    }
    if hsym {
        let ghost kb: int = if vsym {
            2
        } else {
            1
        };
        proof {
            assert(cell[kb] == (lx as int, by as int));
            assert(pixel_ok(cell[kb].0, cell[kb].1, g.stride, len));
            lemma_blend_pixels_push(s0, g.stride, cell, kb, c);
        }
        sprite_pixel(canvas, lx, by, stride, c);
        if vsym {
            proof {
                assert(cell[3] == (rx as int, by as int));
                assert(pixel_ok(cell[3].0, cell[3].1, g.stride, len));
                lemma_blend_pixels_push(s0, g.stride, cell, 3, c);
            }
            sprite_pixel(canvas, rx, by, stride, c);
        }
    }
    proof {
        assert(cell.subrange(0, cell.len() as int) =~= cell);
    }
}

/// A palette index drawn at random: `rand::Rng::gen_range` over `0..len`
/// on the thread-local generator `rand::thread_rng()`. The contract states
/// only what rand documents of every outcome: the index lies in the range
/// (which must not be empty, or `gen_range` panics).
#[verifier::external_body]
fn random_index(len: usize) -> (r: usize)
    requires
        len > 0,
    ensures
        r < len,
{
    rand::Rng::gen_range(&mut rand::thread_rng(), 0..len)
}

/// Whether `k` is an index that the random draw over `0..len` can give:
/// one of its outcomes.
pub closed spec fn drawn_from(k: usize, len: usize) -> bool {
    call_ensures(random_index, (len,), k)
}

/// Every outcome of the random draw over `0..len` lies in that range.
pub proof fn lemma_drawn_in_range(k: usize, len: usize)
    requires
        len > 0,
        drawn_from(k, len),
    ensures
        k < len,
{
}

impl CanvasView {
    /// Draws a sprite of `spritew` by `spriteh` pixels at `at` (in view
    /// coordinates) whose cells take colours drawn at random from the
    /// palette `cmap`, mirrored as `vsym` and `hsym` ask; see
    /// `add_sprite_with`, which it calls with the random picks.
    pub fn add_sprite(
        &self,
        canvas: &mut [u32],
        at: (isize, isize),
        spritew: u32,
        spriteh: u32,
        cmap: &[u32],
        vsym: bool,
        hsym: bool,
    )
        requires
            self.dims_fit(),
            self.sprite_ok(at, spritew, spriteh, cmap@.len() as int, vsym, hsym, old(canvas)@.len() as int),
            self.sprite_geom(at, spritew, spriteh, vsym, hsym).cells() <= usize::MAX,
        ensures
            !self.sprite_drawn(at, spritew, spriteh) ==> final(canvas)@ == old(canvas)@,
            self.sprite_drawn(at, spritew, spriteh) ==> exists|picks: Seq<usize>|
                {
                    &&& picks_fit(picks, self.sprite_geom(at, spritew, spriteh, vsym, hsym), cmap@.len() as int)
                    &&& forall|k: int| 0 <= k < picks.len() ==> drawn_from(#[trigger] picks[k], cmap@.len() as usize)
                    &&& final(canvas)@ == #[trigger] sprite_paint(
                        old(canvas)@,
                        self.sprite_geom(at, spritew, spriteh, vsym, hsym),
                        cmap@,
                        picks,
                    )
                },
    {
        if normalise_rect(self, at, spritew as isize, spriteh as isize).is_none() {
            return;
        }
        let ghost g = self.sprite_geom(at, spritew, spriteh, vsym, hsym);
        let cols: u64 = if vsym {
            (spritew as u64 + 1) / 2
        } else {
            spritew as u64
        };
        let rows: u64 = if hsym {
            (spriteh as u64 + 1) / 2
        } else {
            spriteh as u64
        };
        assert(cols * rows <= u64::MAX) by (nonlinear_arith)
            requires
                cols <= u32::MAX,
                rows <= u32::MAX,
        ;
        let cells = (cols * rows) as usize;
        assert(cells == g.cells());
        let mut picks: Vec<usize> = Vec::new();
        while picks.len() < cells
            invariant
                picks@.len() <= cells,
                cmap@.len() > 0,
                forall|k: int| 0 <= k < picks@.len() ==> #[trigger] picks@[k] < cmap@.len(),
                forall|k: int| 0 <= k < picks@.len() ==> drawn_from(#[trigger] picks@[k], cmap@.len() as usize),
            decreases cells - picks@.len(),
        {
            let draw = random_index;
            let pick = draw(cmap.len());
            proof {
                reveal(drawn_from);
                assert(drawn_from(pick, cmap@.len() as usize));
            }
            picks.push(pick);
        }
        let ghost before = canvas@;
        self.add_sprite_with(canvas, at, spritew, spriteh, cmap, vsym, hsym, picks.as_slice());
        assert(canvas@ == sprite_paint(before, g, cmap@, picks@));
        assert(picks_fit(picks@, g, cmap@.len() as int));
    }
}

/// Composites `colour` over pixel `(x, y)`.
fn sprite_pixel(canvas: &mut [u32], x: u32, y: u32, stride: u32, colour: u32)
    requires
        pixel_ok(x as int, y as int, stride as int, old(canvas)@.len() as int),
    ensures
        final(canvas)@ == ({
            let i = pixel_index(x as int, y as int, stride as int);
            old(canvas)@.update(i, over(old(canvas)@[i], colour))
        }),
{
    assert(y as int * stride as int >= 0) by (nonlinear_arith)
        requires
            y >= 0,
            stride >= 0,
    ;
    let len = canvas.len();
    assert(x + y * stride < len);
    let i = x as usize + y as usize * stride as usize;
    let mut px = canvas[i];
    apply_argb(&mut px, colour);
    canvas[i] = px;
}

/// Whether pixel `(x, y)` lies in the sprite's rectangle.
pub open spec fn in_sprite(g: SpriteGeom, x: int, y: int) -> bool {
    g.x0 <= x < g.x0 + g.w && g.y0 <= y < g.y0 + g.h
}

/// Every pixel a cell colours lies in the sprite's rectangle.
proof fn lemma_cell_in_sprite(g: SpriteGeom, i: int, j: int, k: int)
    requires
        g.w >= 1,
        g.h >= 1,
        0 <= i < g.cols(),
        0 <= j < g.rows(),
        0 <= k < g.cell_pixels(i, j).len(),
    ensures
        in_sprite(g, g.cell_pixels(i, j)[k].0, g.cell_pixels(i, j)[k].1),
{
    lemma_sprite_counts(g);
    if g.vsym {
        assert(2 * i < g.w + 1);
    }
    if g.hsym {
        assert(2 * j < g.h + 1);
    }
}

/// Compositing over pixels none of which is at index `i` leaves pixel `i` alone.
proof fn lemma_blend_pixels_untouched(s: Seq<u32>, stride: int, pts: Seq<(int, int)>, c: u32, i: int)
    requires
        forall|k: int| 0 <= k < pts.len() ==> pixel_ok(#[trigger] pts[k].0, pts[k].1, stride, s.len() as int),
        forall|k: int| 0 <= k < pts.len() ==> pixel_index(#[trigger] pts[k].0, pts[k].1, stride) != i,
        0 <= i < s.len(),
    ensures
        blend_pixels(s, stride, pts, c).len() == s.len(),
        blend_pixels(s, stride, pts, c)[i] == s[i],
    decreases pts.len(),
{
    if pts.len() > 0 {
        let rest = pts.drop_last();
        assert forall|k: int| 0 <= k < rest.len() implies pixel_ok(#[trigger] rest[k].0, rest[k].1, stride, s.len() as int)
            && pixel_index(rest[k].0, rest[k].1, stride) != i by {
            assert(rest[k] == pts[k]);
        }
        lemma_blend_pixels_untouched(s, stride, rest, c, i);
        assert(pts.last() == pts[pts.len() - 1]);
    }
}

/// Whether the sprite's rectangle lies in the canvas's columns, so that no
/// two of its pixels, nor one of its pixels and one outside it, share an index.
pub open spec fn sprite_inside_stride(g: SpriteGeom) -> bool {
    &&& g.stride > 0
    &&& g.x0 >= 0
    &&& g.x0 + g.w <= g.stride
    &&& g.y0 >= 0
}

/// The cells leave every pixel outside the sprite's rectangle alone.
proof fn lemma_cells_outside(s: Seq<u32>, g: SpriteGeom, cmap: Seq<u32>, picks: Seq<usize>, j: int, n: int, i: int)
    requires
        sprite_inside_stride(g),
        g.w >= 1,
        g.h >= 1,
        sprite_pixels_ok(g, s.len() as int),
        0 <= j < g.rows(),
        0 <= n <= g.cols(),
        0 <= i < s.len(),
        !in_sprite(g, i % g.stride, i / g.stride),
    ensures
        sprite_cells(s, g, cmap, picks, j, n).len() == s.len(),
        sprite_cells(s, g, cmap, picks, j, n)[i] == s[i],
    decreases n,
{
    if n > 0 {
        lemma_cells_outside(s, g, cmap, picks, j, n - 1, i);
        let s1 = sprite_cells(s, g, cmap, picks, j, n - 1);
        let cell = g.cell_pixels(n - 1, j);
        assert forall|k: int| 0 <= k < cell.len() implies pixel_ok(#[trigger] cell[k].0, cell[k].1, g.stride, s1.len() as int)
            && pixel_index(cell[k].0, cell[k].1, g.stride) != i by {
            lemma_cell_in_sprite(g, n - 1, j, k);
            assert(pixel_ok(cell[k].0, cell[k].1, g.stride, s.len() as int));
            crate::paint::lemma_index_coords(cell[k].0, cell[k].1, g.stride);
        }
        lemma_blend_pixels_untouched(s1, g.stride, cell, cmap[picks[j * g.cols() + n - 1] as int], i);
    }
}

/// The rows of cells leave every pixel outside the sprite's rectangle alone.
proof fn lemma_rows_outside(s: Seq<u32>, g: SpriteGeom, cmap: Seq<u32>, picks: Seq<usize>, j: int, i: int)
    requires
        sprite_inside_stride(g),
        g.w >= 1,
        g.h >= 1,
        sprite_pixels_ok(g, s.len() as int),
        0 <= j <= g.rows(),
        0 <= i < s.len(),
        !in_sprite(g, i % g.stride, i / g.stride),
    ensures
        sprite_rows(s, g, cmap, picks, j).len() == s.len(),
        sprite_rows(s, g, cmap, picks, j)[i] == s[i],
    decreases j,
{
    lemma_sprite_counts(g);
    if j > 0 {
        lemma_rows_outside(s, g, cmap, picks, j - 1, i);
        lemma_cells_outside(sprite_rows(s, g, cmap, picks, j - 1), g, cmap, picks, j - 1, g.cols(), i);
    }
}

/// A sprite drawn at `at` in a view stays in its rectangle: where that
/// rectangle, `spritew` by `spriteh` pixels from `at` moved by the view's
/// offset, lies in the canvas's columns, every pixel outside it is left as
/// it was, whatever the picks.
pub proof fn law_sprite_stays_in_its_rectangle(
    view: CanvasView,
    s: Seq<u32>,
    at: (isize, isize),
    spritew: u32,
    spriteh: u32,
    cmap: Seq<u32>,
    vsym: bool,
    hsym: bool,
    picks: Seq<usize>,
    i: int,
)
    requires
        view.sprite_ok(at, spritew, spriteh, cmap.len() as int, vsym, hsym, s.len() as int),
        view.sprite_drawn(at, spritew, spriteh),
        view.stride > 0,
        0 <= at.0 + view.offset.0,
        at.0 + view.offset.0 + spritew <= view.stride,
        0 <= at.1 + view.offset.1 <= u32::MAX,
        0 <= i < s.len(),
    ensures
        ({
            let x = i % view.stride as int;
            let y = i / view.stride as int;
            !(at.0 + view.offset.0 <= x < at.0 + view.offset.0 + spritew && at.1 + view.offset.1 <= y < at.1
                + view.offset.1 + spriteh) ==> sprite_paint(
                s,
                view.sprite_geom(at, spritew, spriteh, vsym, hsym),
                cmap,
                picks,
            )[i] == s[i]
        }),
{
    let g = view.sprite_geom(at, spritew, spriteh, vsym, hsym);
    assert(g.x0 == at.0 + view.offset.0);
    assert(g.y0 == at.1 + view.offset.1);
    if !in_sprite(g, i % g.stride, i / g.stride) {
        lemma_rows_outside(s, g, cmap, picks, g.rows(), i);
    }
}

/// Without mirrors, the first `n` cells of row `j` composite each its own
/// colour over its own pixel.
proof fn lemma_plain_cells_at(s: Seq<u32>, g: SpriteGeom, cmap: Seq<u32>, picks: Seq<usize>, j: int, n: int, i: int)
    requires
        !g.vsym,
        !g.hsym,
        sprite_inside_stride(g),
        g.w >= 1,
        g.h >= 1,
        sprite_pixels_ok(g, s.len() as int),
        0 <= j < g.rows(),
        0 <= n <= g.cols(),
        0 <= i < s.len(),
    ensures
        sprite_cells(s, g, cmap, picks, j, n).len() == s.len(),
        sprite_cells(s, g, cmap, picks, j, n)[i] == if i / g.stride == g.y0 + j && g.x0 <= i % g.stride < g.x0
            + n {
            over(s[i], cmap[picks[j * g.w + (i % g.stride - g.x0)] as int])
        } else {
            s[i]
        },
    decreases n,
{
    crate::paint::lemma_coords_index(i, g.stride);
    if n > 0 {
        lemma_plain_cells_at(s, g, cmap, picks, j, n - 1, i);
        let s1 = sprite_cells(s, g, cmap, picks, j, n - 1);
        let cell = g.cell_pixels(n - 1, j);
        let c = cmap[picks[j * g.cols() + n - 1] as int];
        assert(g.cols() == g.w);
        assert(cell =~= seq![(g.x0 + n - 1, g.y0 + j)]);
        assert(cell.drop_last() =~= Seq::<(int, int)>::empty());
        assert(blend_pixels(s1, g.stride, cell.drop_last(), c) == s1);
        let idx = pixel_index(g.x0 + n - 1, g.y0 + j, g.stride);
        lemma_cell_in_sprite(g, n - 1, j, 0);
        crate::paint::lemma_index_coords(g.x0 + n - 1, g.y0 + j, g.stride);
        assert(blend_pixels(s1, g.stride, cell, c) == s1.update(idx, over(s1[idx], c)));
        if i == idx {
            lemma_plain_cells_at(s, g, cmap, picks, j, n - 1, idx);
        } else {
            if i / g.stride == g.y0 + j && i % g.stride == g.x0 + n - 1 {
                assert(i == idx);
            }
        }
    }
}

/// Without mirrors, the first `j` rows of cells composite each its own
/// colour over its own pixel.
proof fn lemma_plain_rows_at(s: Seq<u32>, g: SpriteGeom, cmap: Seq<u32>, picks: Seq<usize>, j: int, i: int)
    requires
        !g.vsym,
        !g.hsym,
        sprite_inside_stride(g),
        g.w >= 1,
        g.h >= 1,
        sprite_pixels_ok(g, s.len() as int),
        0 <= j <= g.rows(),
        0 <= i < s.len(),
    ensures
        sprite_rows(s, g, cmap, picks, j).len() == s.len(),
        sprite_rows(s, g, cmap, picks, j)[i] == if g.y0 <= i / g.stride < g.y0 + j && g.x0 <= i % g.stride
            < g.x0 + g.w {
            over(s[i], cmap[picks[(i / g.stride - g.y0) * g.w + (i % g.stride - g.x0)] as int])
        } else {
            s[i]
        },
    decreases j,
{
    if j > 0 {
        lemma_plain_rows_at(s, g, cmap, picks, j - 1, i);
        let s1 = sprite_rows(s, g, cmap, picks, j - 1);
        lemma_plain_cells_at(s1, g, cmap, picks, j - 1, g.cols(), i);
    }
}

/// A sprite without mirrors colours each of its pixels once: where its
/// rectangle lies in the canvas's columns, the pixel `a` across and `b`
/// down from its corner (at `at` moved by the view's offset) is composited
/// with the palette colour of pick number `b * spritew + a`, and every
/// other pixel is left as it was.
pub proof fn law_plain_sprite_pixels(
    view: CanvasView,
    s: Seq<u32>,
    at: (isize, isize),
    spritew: u32,
    spriteh: u32,
    cmap: Seq<u32>,
    picks: Seq<usize>,
    i: int,
)
    requires
        view.sprite_ok(at, spritew, spriteh, cmap.len() as int, false, false, s.len() as int),
        view.sprite_drawn(at, spritew, spriteh),
        view.stride > 0,
        0 <= at.0 + view.offset.0,
        at.0 + view.offset.0 + spritew <= view.stride,
        0 <= at.1 + view.offset.1 <= u32::MAX,
        0 <= i < s.len(),
    ensures
        ({
            let a = i % view.stride as int - (at.0 + view.offset.0);
            let b = i / view.stride as int - (at.1 + view.offset.1);
            sprite_paint(s, view.sprite_geom(at, spritew, spriteh, false, false), cmap, picks)[i] == if 0 <= a
                < spritew && 0 <= b < spriteh {
                over(s[i], cmap[picks[b * spritew + a] as int])
            } else {
                s[i]
            }
        }),
{
    let g = view.sprite_geom(at, spritew, spriteh, false, false);
    assert(g.x0 == at.0 + view.offset.0);
    assert(g.y0 == at.1 + view.offset.1);
    lemma_plain_rows_at(s, g, cmap, picks, g.rows(), i);
}

/// `colour` composited `m` times over `v`.
pub open spec fn over_times(v: u32, colour: u32, m: nat) -> u32
    decreases m,
{
    if m == 0 {
        v
    } else {
        over(over_times(v, colour, (m - 1) as nat), colour)
    }
}

/// How many of the points `pts` are `q`.
pub open spec fn count_at(pts: Seq<(int, int)>, q: (int, int)) -> nat
    decreases pts.len(),
{
    if pts.len() == 0 {
        0
    } else {
        count_at(pts.drop_last(), q) + if pts.last() == q {
            1nat
        } else {
            0nat
        }
    }
}

/// Compositing over a list of pixels inside the stride composites over
/// pixel `i` once for each time it is listed.
proof fn lemma_blend_pixels_count(s: Seq<u32>, stride: int, pts: Seq<(int, int)>, c: u32, i: int)
    requires
        stride > 0,
        forall|k: int| 0 <= k < pts.len() ==> pixel_ok(#[trigger] pts[k].0, pts[k].1, stride, s.len() as int),
        forall|k: int| 0 <= k < pts.len() ==> #[trigger] pts[k].0 < stride,
        0 <= i < s.len(),
    ensures
        blend_pixels(s, stride, pts, c).len() == s.len(),
        blend_pixels(s, stride, pts, c)[i] == over_times(s[i], c, count_at(pts, (i % stride, i / stride))),
    decreases pts.len(),
{
    if pts.len() > 0 {
        let pre = pts.drop_last();
        assert forall|k: int| 0 <= k < pre.len() implies pixel_ok(#[trigger] pre[k].0, pre[k].1, stride, s.len() as int)
            && pre[k].0 < stride by {
            assert(pre[k] == pts[k]);
        }
        lemma_blend_pixels_count(s, stride, pre, c, i);
        let p = pts.last();
        assert(p == pts[pts.len() - 1]);
        assert(pixel_ok(p.0, p.1, stride, s.len() as int) && p.0 < stride);
        crate::paint::lemma_index_coords(p.0, p.1, stride);
        crate::paint::lemma_coords_index(i, stride);
        let idx = pixel_index(p.0, p.1, stride);
        if p == (i % stride, i / stride) {
            assert(idx == i);
        }
        if idx == i {
            assert(p == (i % stride, i / stride));
        }
    }
}

/// The column of cells, and how many times a pixel is composited, of the
/// sprite's column `a`: with the vertical mirror, columns past the middle
/// take the cell of their mirror image, and the middle column of an odd
/// width is composited twice.
pub open spec fn mirrored(a: int, w: int, sym: bool) -> (int, nat) {
    if !sym {
        (a, 1)
    } else if 2 * a >= w {
        (w - 1 - a, if 2 * a == w - 1 { 2nat } else { 1nat })
    } else {
        (a, if 2 * a == w - 1 { 2nat } else { 1nat })
    }
}

/// Every pixel of a cell maps back to that cell.
proof fn lemma_cell_maps_back(g: SpriteGeom, ci: int, cj: int, k: int)
    requires
        g.w >= 1,
        g.h >= 1,
        0 <= ci < g.cols(),
        0 <= cj < g.rows(),
        0 <= k < g.cell_pixels(ci, cj).len(),
    ensures
        ({
            let p = g.cell_pixels(ci, cj)[k];
            &&& mirrored(p.0 - g.x0, g.w, g.vsym).0 == ci
            &&& mirrored(p.1 - g.y0, g.h, g.hsym).0 == cj
        }),
{
}

/// How many times a cell lists a pixel of the sprite's rectangle: as often
/// as `mirrored` says on each axis where it is the pixel's cell, and not at
/// all where it is not.
proof fn lemma_cell_count(g: SpriteGeom, ci: int, cj: int, q: (int, int))
    requires
        g.w >= 1,
        g.h >= 1,
        0 <= ci < g.cols(),
        0 <= cj < g.rows(),
        in_sprite(g, q.0, q.1),
    ensures
        ({
            let mx = mirrored(q.0 - g.x0, g.w, g.vsym);
            let my = mirrored(q.1 - g.y0, g.h, g.hsym);
            count_at(g.cell_pixels(ci, cj), q) == if mx.0 == ci && my.0 == cj {
                mx.1 * my.1
            } else {
                0
            }
        }),
{
    reveal_with_fuel(count_at, 5);
    let cell = g.cell_pixels(ci, cj);
    let (lx, rx, ty, by) = (g.x0 + ci, g.x_end() - ci, g.y0 + cj, g.y_end() - cj);
    let ix: int = if lx == q.0 { 1 } else { 0 };
    let irx: int = if rx == q.0 { 1 } else { 0 };
    let iy: int = if ty == q.1 { 1 } else { 0 };
    let iby: int = if by == q.1 { 1 } else { 0 };
    if g.vsym && g.hsym {
        let c = seq![(lx, ty), (rx, ty), (lx, by), (rx, by)];
        assert(cell =~= c);
        assert(c.drop_last() =~= seq![(lx, ty), (rx, ty), (lx, by)]);
        assert(c.drop_last().drop_last() =~= seq![(lx, ty), (rx, ty)]);
        assert(c.drop_last().drop_last().drop_last() =~= seq![(lx, ty)]);
        assert(c.drop_last().drop_last().drop_last().drop_last() =~= Seq::<(int, int)>::empty());
        assert(count_at(cell, q) == ix * iy + irx * iy + ix * iby + irx * iby);
        assert(ix * iy + irx * iy + ix * iby + irx * iby == (ix + irx) * (iy + iby)) by (nonlinear_arith);
    } else if g.vsym {
        let c = seq![(lx, ty), (rx, ty)];
        assert(cell =~= c);
        assert(c.drop_last() =~= seq![(lx, ty)]);
        assert(c.drop_last().drop_last() =~= Seq::<(int, int)>::empty());
        assert(count_at(cell, q) == ix * iy + irx * iy);
        assert(ix * iy + irx * iy == (ix + irx) * iy) by (nonlinear_arith);
    } else if g.hsym {
        let c = seq![(lx, ty), (lx, by)];
        assert(cell =~= c);
        assert(c.drop_last() =~= seq![(lx, ty)]);
        assert(c.drop_last().drop_last() =~= Seq::<(int, int)>::empty());
        assert(count_at(cell, q) == ix * iy + ix * iby);
        assert(ix * iy + ix * iby == ix * (iy + iby)) by (nonlinear_arith);
    } else {
        let c = seq![(lx, ty)];
        assert(cell =~= c);
        assert(c.drop_last() =~= Seq::<(int, int)>::empty());
        assert(count_at(cell, q) == ix * iy);
    }
    let mx = mirrored(q.0 - g.x0, g.w, g.vsym);
    let my = mirrored(q.1 - g.y0, g.h, g.hsym);
    let sx: int = if g.vsym { ix + irx } else { ix };
    let sy: int = if g.hsym { iy + iby } else { iy };
    assert(sx == if mx.0 == ci { mx.1 as int } else { 0 });
    assert(sy == if my.0 == cj { my.1 as int } else { 0 });
    assert(count_at(cell, q) == sx * sy);
    if mx.0 == ci && my.0 == cj {
        assert(sx * sy == mx.1 * my.1);
    } else {
        assert(sx == 0 || sy == 0);
        assert(sx * sy == 0) by (nonlinear_arith)
            requires
                sx == 0 || sy == 0,
        ;
    }
}

/// The first `n` cells of row `j` composite each pixel of the sprite whose
/// cell they are with that cell's colour, as many times as the cell lists
/// the pixel, and leave every other pixel alone.
proof fn lemma_cells_count(s: Seq<u32>, g: SpriteGeom, cmap: Seq<u32>, picks: Seq<usize>, j: int, n: int, i: int)
    requires
        sprite_inside_stride(g),
        g.w >= 1,
        g.h >= 1,
        sprite_pixels_ok(g, s.len() as int),
        0 <= j < g.rows(),
        0 <= n <= g.cols(),
        0 <= i < s.len(),
    ensures
        sprite_cells(s, g, cmap, picks, j, n).len() == s.len(),
        ({
            let q = (i % g.stride, i / g.stride);
            let mx = mirrored(q.0 - g.x0, g.w, g.vsym);
            let my = mirrored(q.1 - g.y0, g.h, g.hsym);
            sprite_cells(s, g, cmap, picks, j, n)[i] == if in_sprite(g, q.0, q.1) && my.0 == j && mx.0 < n {
                over_times(s[i], cmap[picks[j * g.cols() + mx.0] as int], mx.1 * my.1)
            } else {
                s[i]
            }
        }),
    decreases n,
{
    let q = (i % g.stride, i / g.stride);
    if !in_sprite(g, q.0, q.1) {
        lemma_cells_outside(s, g, cmap, picks, j, n, i);
    } else if n > 0 {
        lemma_cells_count(s, g, cmap, picks, j, n - 1, i);
        let s1 = sprite_cells(s, g, cmap, picks, j, n - 1);
        let cell = g.cell_pixels(n - 1, j);
        let c = cmap[picks[j * g.cols() + n - 1] as int];
        assert forall|k: int| 0 <= k < cell.len() implies pixel_ok(#[trigger] cell[k].0, cell[k].1, g.stride, s1.len() as int)
            && cell[k].0 < g.stride by {
            lemma_cell_in_sprite(g, n - 1, j, k);
        }
        lemma_blend_pixels_count(s1, g.stride, cell, c, i);
        lemma_cell_count(g, n - 1, j, q);
    }
}

/// A pixel of the sprite's rectangle has a cell among the sprite's cells.
proof fn lemma_mirrored_in_range(g: SpriteGeom, q: (int, int))
    requires
        g.w >= 1,
        g.h >= 1,
        in_sprite(g, q.0, q.1),
    ensures
        0 <= mirrored(q.0 - g.x0, g.w, g.vsym).0 < g.cols(),
        0 <= mirrored(q.1 - g.y0, g.h, g.hsym).0 < g.rows(),
{
}

/// The first `j` rows of cells composite each pixel of the sprite in those
/// rows with its cell's colour, as many times as its cell lists it, and
/// leave every other pixel alone.
proof fn lemma_rows_count(s: Seq<u32>, g: SpriteGeom, cmap: Seq<u32>, picks: Seq<usize>, j: int, i: int)
    requires
        sprite_inside_stride(g),
        g.w >= 1,
        g.h >= 1,
        sprite_pixels_ok(g, s.len() as int),
        0 <= j <= g.rows(),
        0 <= i < s.len(),
    ensures
        sprite_rows(s, g, cmap, picks, j).len() == s.len(),
        ({
            let q = (i % g.stride, i / g.stride);
            let mx = mirrored(q.0 - g.x0, g.w, g.vsym);
            let my = mirrored(q.1 - g.y0, g.h, g.hsym);
            sprite_rows(s, g, cmap, picks, j)[i] == if in_sprite(g, q.0, q.1) && my.0 < j {
                over_times(s[i], cmap[picks[my.0 * g.cols() + mx.0] as int], mx.1 * my.1)
            } else {
                s[i]
            }
        }),
    decreases j,
{
    lemma_sprite_counts(g);
    let q = (i % g.stride, i / g.stride);
    if in_sprite(g, q.0, q.1) {
        lemma_mirrored_in_range(g, q);
    }
    if j > 0 {
        lemma_rows_count(s, g, cmap, picks, j - 1, i);
        lemma_cells_count(sprite_rows(s, g, cmap, picks, j - 1), g, cmap, picks, j - 1, g.cols(), i);
    }
}

/// Where its rectangle lies in the canvas's columns, a sprite composites
/// each pixel of its rectangle, `a` across and `b` down from its corner (at
/// `at` moved by the view's offset), with the palette colour of the pick of
/// its cell, and leaves every other pixel as it was. Without mirrors the
/// cell of a pixel is the pixel itself; the vertical mirror gives columns
/// past the middle the cell of their mirror image, the horizontal mirror
/// does so for rows, and a pixel on a mirror axis is composited twice (on
/// both axes, four times). Picks are numbered row by row over the cells.
pub proof fn law_sprite_pixels(
    view: CanvasView,
    s: Seq<u32>,
    at: (isize, isize),
    spritew: u32,
    spriteh: u32,
    cmap: Seq<u32>,
    vsym: bool,
    hsym: bool,
    picks: Seq<usize>,
    i: int,
)
    requires
        view.sprite_ok(at, spritew, spriteh, cmap.len() as int, vsym, hsym, s.len() as int),
        view.sprite_drawn(at, spritew, spriteh),
        view.stride > 0,
        0 <= at.0 + view.offset.0,
        at.0 + view.offset.0 + spritew <= view.stride,
        0 <= at.1 + view.offset.1 <= u32::MAX,
        0 <= i < s.len(),
    ensures
        ({
            let a = i % view.stride as int - (at.0 + view.offset.0);
            let b = i / view.stride as int - (at.1 + view.offset.1);
            let mx = mirrored(a, spritew as int, vsym);
            let my = mirrored(b, spriteh as int, hsym);
            let cols = if vsym {
                (spritew + 1) / 2
            } else {
                spritew as int
            };
            sprite_paint(s, view.sprite_geom(at, spritew, spriteh, vsym, hsym), cmap, picks)[i] == if 0 <= a
                < spritew && 0 <= b < spriteh {
                over_times(s[i], cmap[picks[my.0 * cols + mx.0] as int], mx.1 * my.1)
            } else {
                s[i]
            }
        }),
{
    let g = view.sprite_geom(at, spritew, spriteh, vsym, hsym);
    assert(g.x0 == at.0 + view.offset.0);
    assert(g.y0 == at.1 + view.offset.1);
    lemma_rows_count(s, g, cmap, picks, g.rows(), i);
}

} // verus!
