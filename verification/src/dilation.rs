//! Label masks and their dilation by a Chebyshev radius.

use vstd::prelude::*;
use crate::geometry::{chebyshev, lemma_chebyshev_triangle, lemma_midpoint};
use crate::overlap::masks_meet;
use crate::raster::{
    flag, lemma_cell_index, lemma_index_split, lemma_same_pixels, Raster, RasterView,
};

verus! {

/// The mask of one label: 255 where the label raster carries `label`,
/// 0 elsewhere.
pub open spec fn mask_of(labels: RasterView<u32>, label: u32) -> RasterView<u8> {
    RasterView {
        width: labels.width,
        height: labels.height,
        cells: Seq::new(labels.cells.len(), |i: int| flag(labels.cells[i] == label)),
    }
}

/// Some set pixel of `mask` lies within Chebyshev distance `radius` of
/// `(x, y)`. Pixels outside the raster do not count.
pub open spec fn near_foreground(mask: RasterView<u8>, x: int, y: int, radius: int) -> bool {
    exists|px: int, py: int|
        mask.contains(px, py) && #[trigger] mask.at(px, py) != 0 && chebyshev(x, y, px, py)
            <= radius
}

/// `out` is `mask` dilated by `radius`: 255 at every pixel that is near a
/// set pixel of `mask`, 0 at every other pixel.
pub open spec fn is_dilation(mask: RasterView<u8>, radius: int, out: RasterView<u8>) -> bool {
    &&& out.wf()
    &&& out.same_shape(mask)
    &&& forall|x: int, y: int|
        out.contains(x, y) ==> #[trigger] out.at(x, y) == flag(near_foreground(mask, x, y, radius))
}

/// The dilation of `mask` by `radius`, cell by cell.
pub open spec fn dilation_of(mask: RasterView<u8>, radius: int) -> RasterView<u8> {
    RasterView {
        width: mask.width,
        height: mask.height,
        cells: Seq::new(
            mask.cells.len(),
            |i: int| flag(near_foreground(mask, i % mask.width, i / mask.width, radius)),
        ),
    }
}

/// `dilation_of` is a dilation, and the only one.
pub proof fn lemma_dilation_unique(mask: RasterView<u8>, radius: int, out: RasterView<u8>)
    requires
        mask.wf(),
    ensures
        is_dilation(mask, radius, dilation_of(mask, radius)),
        is_dilation(mask, radius, out) ==> out == dilation_of(mask, radius),
{
    let d = dilation_of(mask, radius);
    assert forall|x: int, y: int| d.contains(x, y) implies #[trigger] d.at(x, y) == flag(
        near_foreground(mask, x, y, radius),
    ) by {
        lemma_cell_index(mask.width, mask.height, x, y);
        lemma_index_split(mask.width, x, y);
    }
    if is_dilation(mask, radius, out) {
        lemma_same_pixels(out, d);
    }
}

/// The mask has a set pixel.
pub open spec fn has_foreground(mask: RasterView<u8>) -> bool {
    exists|i: int| 0 <= i < mask.cells.len() && #[trigger] mask.cells[i] != 0
}

/// Builds the mask of one label.
pub fn build_mask(labels: &Raster<u32>, label: u32) -> (mask: Raster<u8>)
    requires
        labels.wf(),
    ensures
        mask.wf(),
        mask@ == mask_of(labels@, label),
{
    let n: usize = labels.cells.len();
    let mut cells: Vec<u8> = Vec::with_capacity(n);
    let mut i: usize = 0;
    while i < n
        invariant
            n == labels.cells.len(),
            i <= n,
            cells.len() == i,
            forall|j: int| 0 <= j < i ==> cells[j] == flag(labels.cells[j] == label),
        decreases n - i,
    {
        let value: u8 = if labels.cells[i] == label {
            255
        } else {
            0
        };
        cells.push(value);
        i += 1;
    }
    let mask = Raster { width: labels.width, height: labels.height, cells };
    assert(mask@.cells =~= mask_of(labels@, label).cells);
    mask
}

/// Dilates a mask by calling `imageproc::morphology::dilate_mut` with
/// `Norm::LInf` on a copy of it.
///
/// Trusted: the result has the shape of the mask and is 255 exactly at the
/// pixels within Chebyshev distance `radius` of a non-zero pixel of the
/// mask, 0 elsewhere. The outside function measures distances in 8 bits,
/// capped at the sum of width and height: with radius 255, or with no set
/// pixel on a small raster, it would paint every pixel, and it adds width
/// and height as 32-bit numbers. Those inputs are excluded.
#[verifier::external_body]
fn dilate_chebyshev(mask: &Raster<u8>, radius: u8) -> (out: Raster<u8>)
    requires
        mask.wf(),
        has_foreground(mask@),
        radius < 255,
        mask.width + mask.height <= u32::MAX,
    ensures
        is_dilation(mask@, radius as int, out@),
{
    let mut image = image::GrayImage::from_raw(mask.width, mask.height, mask.cells.clone()).unwrap();
    imageproc::morphology::dilate_mut(&mut image, imageproc::distance_transform::Norm::LInf, radius);
    Raster { width: mask.width, height: mask.height, cells: image.into_raw() }
}

fn any_foreground(mask: &Raster<u8>) -> (found: bool)
    ensures
        found == has_foreground(mask@),
{
    let n: usize = mask.cells.len();
    let mut i: usize = 0;
    while i < n
        invariant
            n == mask.cells.len(),
            i <= n,
            forall|j: int| 0 <= j < i ==> mask.cells[j] == 0,
        decreases n - i,
    {
        if mask.cells[i] != 0 {
            assert(mask@.cells[i as int] != 0);
            return true;
        }
        i += 1;
    }
    false
}

/// Expands a mask by `radius` under Chebyshev distance: a pixel of the
/// result is set exactly when some set pixel of the mask lies within
/// `radius` of it. Nothing wraps around at the edges.
pub fn dilate(mask: &Raster<u8>, radius: u8) -> (out: Raster<u8>)
    requires
        mask.wf(),
        radius < 255,
        mask.width + mask.height <= u32::MAX,
    ensures
        out.wf(),
        is_dilation(mask@, radius as int, out@),
        out@ == dilation_of(mask@, radius as int),
{
    proof {
        lemma_dilation_unique(mask@, radius as int, dilation_of(mask@, radius as int));
    }
    if any_foreground(mask) {
        let out = dilate_chebyshev(mask, radius);
        proof {
            lemma_dilation_unique(mask@, radius as int, out@);
        }
        out
    } else {
        assert(mask.cells.len() == mask.width * mask.height);
        let out = Raster::filled(mask.width, mask.height, 0u8);
        proof {
            assert forall|x: int, y: int| out@.contains(x, y) implies #[trigger] out@.at(x, y)
                == flag(near_foreground(mask@, x, y, radius as int)) by {
                lemma_cell_index(mask@.width, mask@.height, x, y);
                assert forall|px: int, py: int| mask@.contains(px, py) implies #[trigger] mask@.at(
                    px,
                    py,
                ) == 0 by {
                    lemma_cell_index(mask@.width, mask@.height, px, py);
                }
            }
            lemma_dilation_unique(mask@, radius as int, out@);
        }
        out
    }
}

/// Two set pixels, one of each mask, lie within `reach` of each other.
pub open spec fn masks_within(a: RasterView<u8>, b: RasterView<u8>, reach: int) -> bool {
    exists|ax: int, ay: int, bx: int, by: int|
        a.contains(ax, ay) && b.contains(bx, by) && #[trigger] a.at(ax, ay) != 0 && #[trigger] b.at(
            bx,
            by,
        ) != 0 && chebyshev(ax, ay, bx, by) <= reach
}

/// The dilations of two masks by `radius` share a pixel exactly when the
/// masks come within `2 * radius` of each other.
pub proof fn lemma_dilations_meet_iff_close(a: RasterView<u8>, b: RasterView<u8>, radius: int)
    requires
        a.wf(),
        b.wf(),
        a.same_shape(b),
        0 <= radius,
    ensures
        masks_meet(dilation_of(a, radius), dilation_of(b, radius)) <==> masks_within(
            a,
            b,
            2 * radius,
        ),
{
    let da = dilation_of(a, radius);
    let db = dilation_of(b, radius);
    lemma_dilation_unique(a, radius, da);
    lemma_dilation_unique(b, radius, db);
    if masks_meet(da, db) {
        let (x, y) = choose|x: int, y: int|
            da.contains(x, y) && #[trigger] da.at(x, y) != 0 && db.at(x, y) != 0;
        assert(db.contains(x, y));
        assert(near_foreground(a, x, y, radius));
        assert(near_foreground(b, x, y, radius));
        let (ax, ay) = choose|px: int, py: int|
            a.contains(px, py) && #[trigger] a.at(px, py) != 0 && chebyshev(x, y, px, py) <= radius;
        let (bx, by) = choose|px: int, py: int|
            b.contains(px, py) && #[trigger] b.at(px, py) != 0 && chebyshev(x, y, px, py) <= radius;
        lemma_chebyshev_triangle(ax, ay, x, y, bx, by);
        assert(a.contains(ax, ay) && b.contains(bx, by) && a.at(ax, ay) != 0 && b.at(bx, by) != 0
            && chebyshev(ax, ay, bx, by) <= 2 * radius);
    }
    if masks_within(a, b, 2 * radius) {
        let (ax, ay, bx, by) = choose|ax: int, ay: int, bx: int, by: int|
            a.contains(ax, ay) && b.contains(bx, by) && #[trigger] a.at(ax, ay) != 0
                && #[trigger] b.at(bx, by) != 0 && chebyshev(ax, ay, bx, by) <= 2 * radius;
        let m = lemma_midpoint(ax, ay, bx, by, radius);
        assert(da.contains(m.0, m.1));
        assert(a.contains(ax, ay) && a.at(ax, ay) != 0 && chebyshev(m.0, m.1, ax, ay) <= radius);
        assert(near_foreground(a, m.0, m.1, radius));
        assert(b.contains(bx, by) && b.at(bx, by) != 0 && chebyshev(m.0, m.1, bx, by) <= radius);
        assert(near_foreground(b, m.0, m.1, radius));
        assert(db.contains(m.0, m.1));
        assert(da.at(m.0, m.1) != 0 && db.at(m.0, m.1) != 0);
    }
}

} // verus!
