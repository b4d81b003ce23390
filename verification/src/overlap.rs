//! Overlap of dilated masks: the margin raster, the conflict raster and the
//! test whether one mask keeps clear of all others.

use vstd::prelude::*;
use crate::raster::{flag, lemma_cell_index, lemma_index_coords, views, Raster, RasterView};

verus! {

/// Every mask is well formed and has the given shape.
pub open spec fn masks_fit(masks: Seq<RasterView<u8>>, width: int, height: int) -> bool {
    forall|k: int|
        0 <= k < masks.len() ==> (#[trigger] masks[k]).wf() && masks[k].width == width
            && masks[k].height == height
}

/// Some mask is set at `(x, y)`.
pub open spec fn covered(masks: Seq<RasterView<u8>>, x: int, y: int) -> bool {
    exists|k: int| 0 <= k < masks.len() && (#[trigger] masks[k]).at(x, y) != 0
}

/// Two different masks are set at `(x, y)`.
pub open spec fn contested(masks: Seq<RasterView<u8>>, x: int, y: int) -> bool {
    exists|k1: int, k2: int|
        0 <= k1 < k2 < masks.len() && (#[trigger] masks[k1]).at(x, y) != 0 && (
        #[trigger] masks[k2]).at(x, y) != 0
}

/// `margin` is the union of the masks: 255 where some mask is set, 0
/// elsewhere.
pub open spec fn is_margin_raster(
    masks: Seq<RasterView<u8>>,
    width: int,
    height: int,
    margin: RasterView<u8>,
) -> bool {
    &&& margin.wf()
    &&& margin.width == width
    &&& margin.height == height
    &&& forall|x: int, y: int|
        margin.contains(x, y) ==> #[trigger] margin.at(x, y) == flag(covered(masks, x, y))
}

/// `conflict` is the union of the pairwise intersections of the masks: 255
/// where two different masks are set, 0 elsewhere.
pub open spec fn is_conflict_raster(
    masks: Seq<RasterView<u8>>,
    width: int,
    height: int,
    conflict: RasterView<u8>,
) -> bool {
    &&& conflict.wf()
    &&& conflict.width == width
    &&& conflict.height == height
    &&& forall|x: int, y: int|
        conflict.contains(x, y) ==> #[trigger] conflict.at(x, y) == flag(contested(masks, x, y))
}

/// Two masks of one shape share a set pixel.
pub open spec fn masks_meet(a: RasterView<u8>, b: RasterView<u8>) -> bool {
    exists|x: int, y: int| a.contains(x, y) && #[trigger] a.at(x, y) != 0 && b.at(x, y) != 0
}

/// Mask `k` shares no set pixel with any other mask.
pub open spec fn keeps_clear(masks: Seq<RasterView<u8>>, k: int) -> bool {
    forall|j: int| 0 <= j < masks.len() && j != k ==> !masks_meet(masks[k], #[trigger] masks[j])
}

/// One of the first `m` masks is set at cell `i`.
spec fn covered_so_far(masks: Seq<RasterView<u8>>, m: int, i: int) -> bool {
    exists|k: int| 0 <= k < m && (#[trigger] masks[k]).cells[i] != 0
}

/// Two of the first `m` masks are set at cell `i`.
spec fn contested_so_far(masks: Seq<RasterView<u8>>, m: int, i: int) -> bool {
    exists|k1: int, k2: int|
        0 <= k1 < k2 < m && (#[trigger] masks[k1]).cells[i] != 0 && (#[trigger] masks[k2]).cells[i]
            != 0
}

/// What one more mask adds: a cell is covered if it was covered or the
/// new mask is set there, and contested if it was contested or the new
/// mask is set where another already was.
proof fn lemma_one_more_mask(masks: Seq<RasterView<u8>>, m: int, i: int)
    requires
        0 <= m < masks.len(),
    ensures
        covered_so_far(masks, m + 1, i) <==> covered_so_far(masks, m, i) || masks[m].cells[i] != 0,
        contested_so_far(masks, m + 1, i) <==> contested_so_far(masks, m, i) || (covered_so_far(
            masks,
            m,
            i,
        ) && masks[m].cells[i] != 0),
{
    if covered_so_far(masks, m, i) {
        let k = choose|k: int| 0 <= k < m && (#[trigger] masks[k]).cells[i] != 0;
        assert(0 <= k < m + 1 && masks[k].cells[i] != 0);
        if masks[m].cells[i] != 0 {
            assert(0 <= k < m < m + 1 && masks[k].cells[i] != 0 && masks[m].cells[i] != 0);
        }
    }
    if masks[m].cells[i] != 0 {
        assert(0 <= m < m + 1 && masks[m].cells[i] != 0);
    }
    if contested_so_far(masks, m, i) {
        let (k1, k2) = choose|k1: int, k2: int|
            0 <= k1 < k2 < m && (#[trigger] masks[k1]).cells[i] != 0 && (
            #[trigger] masks[k2]).cells[i] != 0;
        assert(0 <= k1 < k2 < m + 1 && masks[k1].cells[i] != 0 && masks[k2].cells[i] != 0);
    }
    if covered_so_far(masks, m + 1, i) {
        let k = choose|k: int| 0 <= k < m + 1 && (#[trigger] masks[k]).cells[i] != 0;
        if k < m {
            assert(0 <= k < m && masks[k].cells[i] != 0);
        }
    }
    if contested_so_far(masks, m + 1, i) {
        let (k1, k2) = choose|k1: int, k2: int|
            0 <= k1 < k2 < m + 1 && (#[trigger] masks[k1]).cells[i] != 0 && (
            #[trigger] masks[k2]).cells[i] != 0;
        assert(0 <= k1 < m && masks[k1].cells[i] != 0);
        if k2 < m {
            assert(0 <= k1 < k2 < m && masks[k1].cells[i] != 0 && masks[k2].cells[i] != 0);
        }
    }
}

/// For masks of one shape, coverage of a pixel is coverage of its cell.
proof fn lemma_overlay_by_pixel(
    masks: Seq<RasterView<u8>>,
    width: int,
    height: int,
    x: int,
    y: int,
)
    requires
        masks_fit(masks, width, height),
        0 <= x < width,
        0 <= y < height,
    ensures
        covered(masks, x, y) <==> covered_so_far(masks, masks.len() as int, y * width + x),
        contested(masks, x, y) <==> contested_so_far(masks, masks.len() as int, y * width + x),
{
    let i = y * width + x;
    let m = masks.len() as int;
    if covered(masks, x, y) {
        let k = choose|k: int| 0 <= k < masks.len() && (#[trigger] masks[k]).at(x, y) != 0;
        assert(0 <= k < m && masks[k].cells[i] != 0);
    }
    if covered_so_far(masks, m, i) {
        let k = choose|k: int| 0 <= k < m && (#[trigger] masks[k]).cells[i] != 0;
        assert(0 <= k < masks.len() && masks[k].at(x, y) != 0);
    }
    if contested(masks, x, y) {
        let (k1, k2) = choose|k1: int, k2: int|
            0 <= k1 < k2 < masks.len() && (#[trigger] masks[k1]).at(x, y) != 0 && (
            #[trigger] masks[k2]).at(x, y) != 0;
        assert(0 <= k1 < k2 < m && masks[k1].cells[i] != 0 && masks[k2].cells[i] != 0);
    }
    if contested_so_far(masks, m, i) {
        let (k1, k2) = choose|k1: int, k2: int|
            0 <= k1 < k2 < m && (#[trigger] masks[k1]).cells[i] != 0 && (
            #[trigger] masks[k2]).cells[i] != 0;
        assert(0 <= k1 < k2 < masks.len() && masks[k1].at(x, y) != 0 && masks[k2].at(x, y) != 0);
    }
}

/// Builds the margin raster and the conflict raster of a list of masks in
/// one pass over each mask: a pixel that a mask finds already in the margin
/// is in conflict.
pub fn overlay_masks(masks: &Vec<Raster<u8>>, width: u32, height: u32) -> (out: (
    Raster<u8>,
    Raster<u8>,
))
    requires
        width * height <= usize::MAX,
        masks_fit(views(masks@), width as int, height as int),
    ensures
        out.0.wf(),
        out.1.wf(),
        is_margin_raster(views(masks@), width as int, height as int, out.0@),
        is_conflict_raster(views(masks@), width as int, height as int, out.1@),
{
    let ghost all = views(masks@);
    let blank = Raster::filled(width, height, 0u8);
    let mut margin: Vec<u8> = blank.cells.clone();
    let mut conflict: Vec<u8> = blank.cells;
    let n: usize = margin.len();
    assert(margin@ =~= conflict@);
    let mut m: usize = 0;
    while m < masks.len()
        invariant
            all == views(masks@),
            masks_fit(all, width as int, height as int),
            n == width * height,
            margin.len() == n,
            conflict.len() == n,
            m <= masks.len(),
            forall|i: int| 0 <= i < n ==> #[trigger] margin[i] == flag(covered_so_far(all, m as int, i)),
            forall|i: int|
                0 <= i < n ==> #[trigger] conflict[i] == flag(contested_so_far(all, m as int, i)),
        decreases masks.len() - m,
    {
        let mask = &masks[m];
        assert(all[m as int] == mask@);
        assert(mask.cells.len() == n);
        let mut i: usize = 0;
        while i < n
            invariant
                all == views(masks@),
                m < masks.len(),
                all[m as int] == mask@,
                mask.cells.len() == n,
                margin.len() == n,
                conflict.len() == n,
                i <= n,
                forall|j: int|
                    0 <= j < i ==> #[trigger] margin[j] == flag(covered_so_far(all, m + 1, j)),
                forall|j: int|
                    0 <= j < i ==> #[trigger] conflict[j] == flag(contested_so_far(all, m + 1, j)),
                forall|j: int|
                    i <= j < n ==> #[trigger] margin[j] == flag(covered_so_far(all, m as int, j)),
                forall|j: int|
                    i <= j < n ==> #[trigger] conflict[j] == flag(
                        contested_so_far(all, m as int, j),
                    ),
            decreases n - i,
        {
            proof {
                lemma_one_more_mask(all, m as int, i as int);
            }
            if mask.cells[i] != 0 {
                if margin[i] != 0 {
                    conflict.set(i, 255);
                } else {
                    margin.set(i, 255);
                }
            }
            i += 1;
        }
        m += 1;
    }
    let margin_raster = Raster { width, height, cells: margin };
    let conflict_raster = Raster { width, height, cells: conflict };
    proof {
        assert forall|x: int, y: int| margin_raster@.contains(x, y) implies #[trigger] margin_raster@.at(
            x,
            y,
        ) == flag(covered(all, x, y)) by {
            lemma_cell_index(width as int, height as int, x, y);
            lemma_overlay_by_pixel(all, width as int, height as int, x, y);
        }
        assert forall|x: int, y: int| conflict_raster@.contains(x, y) implies #[trigger] conflict_raster@.at(
            x,
            y,
        ) == flag(contested(all, x, y)) by {
            lemma_cell_index(width as int, height as int, x, y);
            lemma_overlay_by_pixel(all, width as int, height as int, x, y);
        }
    }
    (margin_raster, conflict_raster)
}

/// Tests whether two masks of one shape share a set pixel.
pub fn masks_overlap(a: &Raster<u8>, b: &Raster<u8>) -> (overlap: bool)
    requires
        a.wf(),
        b.wf(),
        a@.same_shape(b@),
    ensures
        overlap == masks_meet(a@, b@),
{
    let n: usize = a.cells.len();
    let mut i: usize = 0;
    while i < n
        invariant
            a.wf(),
            b.wf(),
            a@.same_shape(b@),
            n == a.cells.len(),
            n == b.cells.len(),
            i <= n,
            forall|j: int| 0 <= j < i ==> !(#[trigger] a.cells[j] != 0 && b.cells[j] != 0),
        decreases n - i,
    {
        if a.cells[i] != 0 && b.cells[i] != 0 {
            proof {
                lemma_index_coords(a@.width, a@.height, i as int);
                let x = i as int % a@.width;
                let y = i as int / a@.width;
                assert(a@.contains(x, y) && a@.at(x, y) != 0 && b@.at(x, y) != 0);
            }
            return true;
        }
        i += 1;
    }
    proof {
        assert forall|x: int, y: int| a@.contains(x, y) implies !(#[trigger] a@.at(x, y) != 0
            && b@.at(x, y) != 0) by {
            lemma_cell_index(a@.width, a@.height, x, y);
        }
    }
    false
}

/// A mask keeps clear of all the others exactly when it shares no set
/// pixel with the conflict raster.
pub proof fn lemma_clear_iff_conflict_free(
    masks: Seq<RasterView<u8>>,
    width: int,
    height: int,
    conflict: RasterView<u8>,
    k: int,
)
    requires
        masks_fit(masks, width, height),
        is_conflict_raster(masks, width, height, conflict),
        0 <= k < masks.len(),
    ensures
        keeps_clear(masks, k) <==> !masks_meet(masks[k], conflict),
{
    if masks_meet(masks[k], conflict) {
        let (x, y) = choose|x: int, y: int|
            masks[k].contains(x, y) && #[trigger] masks[k].at(x, y) != 0 && conflict.at(x, y) != 0;
        assert(conflict.contains(x, y));
        assert(contested(masks, x, y));
        let (k1, k2) = choose|k1: int, k2: int|
            0 <= k1 < k2 < masks.len() && (#[trigger] masks[k1]).at(x, y) != 0 && (
            #[trigger] masks[k2]).at(x, y) != 0;
        let j = if k1 == k {
            k2
        } else {
            k1
        };
        assert(masks[k].contains(x, y) && masks[k].at(x, y) != 0 && masks[j].at(x, y) != 0);
        assert(masks_meet(masks[k], masks[j]));
        assert(!keeps_clear(masks, k));
    }
    if !keeps_clear(masks, k) {
        let j = choose|j: int|
            0 <= j < masks.len() && j != k && masks_meet(masks[k], #[trigger] masks[j]);
        let (x, y) = choose|x: int, y: int|
            masks[k].contains(x, y) && #[trigger] masks[k].at(x, y) != 0 && masks[j].at(x, y) != 0;
        if j < k {
            assert(0 <= j < k < masks.len() && masks[j].at(x, y) != 0 && masks[k].at(x, y) != 0);
        } else {
            assert(0 <= k < j < masks.len() && masks[k].at(x, y) != 0 && masks[j].at(x, y) != 0);
        }
        assert(contested(masks, x, y));
        assert(conflict.contains(x, y));
        assert(conflict.at(x, y) != 0);
        assert(masks_meet(masks[k], conflict));
    }
}

} // verus!
