//! Compositing: the colour-coded output raster.

use vstd::prelude::*;
use crate::colour::{classify_pixel, cyan, green, pixel_colour, red, transparent, violet, Rgba};
use crate::raster::{lemma_cell_index, lemma_index_split, Raster, RasterView};

verus! {

/// The colour that the composition gives the pixel `(x, y)`.
pub open spec fn composed_pixel(
    labels: RasterView<u32>,
    margin: RasterView<u8>,
    conflict: RasterView<u8>,
    x: int,
    y: int,
) -> Rgba {
    pixel_colour(
        labels.on_border(x, y),
        labels.at(x, y) != 0,
        margin.at(x, y) != 0,
        conflict.at(x, y) != 0,
    )
}

/// `out` is the colour-coded composition of the three rasters.
pub open spec fn is_composition(
    labels: RasterView<u32>,
    margin: RasterView<u8>,
    conflict: RasterView<u8>,
    out: RasterView<Rgba>,
) -> bool {
    &&& out.wf()
    &&& out.same_shape(labels)
    &&& forall|x: int, y: int|
        out.contains(x, y) ==> #[trigger] out.at(x, y) == composed_pixel(
            labels,
            margin,
            conflict,
            x,
            y,
        )
}

/// Paints every pixel according to its label, the margin raster and the
/// conflict raster.
pub fn compose(labels: &Raster<u32>, margin: &Raster<u8>, conflict: &Raster<u8>) -> (out: Raster<
    Rgba,
>)
    requires
        labels.wf(),
        margin.wf(),
        conflict.wf(),
        margin@.same_shape(labels@),
        conflict@.same_shape(labels@),
    ensures
        out.wf(),
        is_composition(labels@, margin@, conflict@, out@),
        forall|x: int, y: int|
            out@.contains(x, y) && labels@.at(x, y) == 0 ==> #[trigger] out@.at(x, y) != green() && (
            out@.at(x, y) == transparent() || out@.at(x, y) == cyan() || out@.at(x, y) == red()
                || out@.at(x, y) == violet()),
{
    let w: u32 = labels.width;
    let h: u32 = labels.height;
    let n: usize = labels.cells.len();
    let mut cells: Vec<Rgba> = Vec::with_capacity(n);
    let mut i: usize = 0;
    let mut x: u32 = 0;
    let mut y: u32 = 0;
    proof {
        assert(n > 0 ==> w > 0) by (nonlinear_arith)
            requires
                n == w * h,
        ;
    }
    while i < n
        invariant
            labels.wf(),
            margin.wf(),
            conflict.wf(),
            margin@.same_shape(labels@),
            conflict@.same_shape(labels@),
            w == labels.width,
            h == labels.height,
            n == labels.cells.len(),
            i <= n,
            i == y * w + x,
            i < n ==> x < w,
            cells.len() == i,
            forall|px: int, py: int|
                0 <= px < w && 0 <= py < h && py * w + px < i ==> cells[py * w + px]
                    == #[trigger] composed_pixel(labels@, margin@, conflict@, px, py),
        decreases n - i,
    {
        proof {
            assert((y + 1) * w == y * w + w) by (nonlinear_arith);
            assert(y < h) by (nonlinear_arith)
                requires
                    y * w + x < w * h,
                    0 <= x,
                    0 < w,
            ;
        }
        let on_border: bool = x == 0 || x == w - 1 || y == 0 || y == h - 1;
        let colour = classify_pixel(
            on_border,
            labels.cells[i] != 0,
            margin.cells[i] != 0,
            conflict.cells[i] != 0,
        );
        assert(colour == composed_pixel(labels@, margin@, conflict@, x as int, y as int));
        let ghost before = cells@;
        cells.push(colour);
        proof {
            assert forall|px: int, py: int|
                0 <= px < w && 0 <= py < h && py * w + px < i + 1 implies cells[py * w + px]
                == #[trigger] composed_pixel(labels@, margin@, conflict@, px, py) by {
                lemma_cell_index(w as int, h as int, px, py);
                if py * w + px == i {
                    lemma_index_split(w as int, px, py);
                    lemma_index_split(w as int, x as int, y as int);
                } else {
                    assert(cells[py * w + px] == before[py * w + px]);
                }
            }
        }
        i += 1;
        x += 1;
        if x == w {
            x = 0;
            y += 1;
        }
    }
    let out = Raster { width: w, height: h, cells };
    proof {
        assert forall|px: int, py: int| out@.contains(px, py) implies #[trigger] out@.at(px, py)
            == composed_pixel(labels@, margin@, conflict@, px, py) by {
            lemma_cell_index(w as int, h as int, px, py);
        }
    }
    out
}

} // verus!
