//! Laws of the analysis: what holds of every result, whatever numbers the
//! labelling hands out.

use vstd::prelude::*;
use crate::colour::{cyan, green, red, transparent, violet, Rgba};
use crate::compose::composed_pixel;
use crate::dilation::{
    dilation_of, lemma_dilation_unique, lemma_dilations_meet_iff_close, mask_of, masks_within,
    near_foreground,
};
use crate::foreground::occupancy_of;
use crate::geometry::chebyshev;
use crate::labelling::{connected, is_labelling};
use crate::overlap::{contested, covered, keeps_clear, masks_meet};
use crate::pipeline::{dilated_masks, follows_from_labels, is_analysis, status_of, Analysis, Config};
use crate::raster::{lemma_cell_index, lemma_index_coords, lemma_same_pixels, RasterView};
use crate::regions::{
    anchors, count_label, describes, is_anchor, lemma_anchors_sorted,
    lemma_region_labels_distinct, lemma_region_of_pixel, Region,
};
use crate::report::{bbox_area, entries_of, entry_of, RegionStatus};

verus! {

/// Two label rasters of one shape split the pixels in the same way: they
/// agree on which pixels are background and on which pairs of pixels carry
/// one label.
pub open spec fn same_partition(l1: RasterView<u32>, l2: RasterView<u32>) -> bool {
    &&& l1.wf()
    &&& l2.wf()
    &&& l1.same_shape(l2)
    &&& forall|i: int|
        0 <= i < l1.cells.len() ==> (#[trigger] l1.cells[i] == 0 <==> l2.cells[i] == 0)
    &&& forall|i: int, j: int|
        0 <= i < l1.cells.len() && 0 <= j < l1.cells.len() ==> (#[trigger] l1.cells[i]
            == #[trigger] l1.cells[j] <==> l2.cells[i] == l2.cells[j])
}

/// Label `v1` marks in `c1` the cells that label `v2` marks in `c2`.
pub open spec fn same_cells(c1: Seq<u32>, c2: Seq<u32>, v1: u32, v2: u32) -> bool {
    forall|i: int| 0 <= i < c1.len() ==> (#[trigger] c1[i] == v1 <==> c2[i] == v2)
}

/// Two region records agree in everything but the label.
pub open spec fn same_extent(r1: Region, r2: Region) -> bool {
    &&& r1.min_x == r2.min_x
    &&& r1.min_y == r2.min_y
    &&& r1.max_x == r2.max_x
    &&& r1.max_y == r2.max_y
    &&& r1.pixel_count == r2.pixel_count
}

/// A background pixel is never painted green: it comes out transparent,
/// cyan, red or violet.
pub proof fn lemma_background_never_green(config: Config, a: Analysis, x: int, y: int)
    requires
        follows_from_labels(config, a),
        a.labels@.contains(x, y),
        a.labels@.at(x, y) == 0,
    ensures
        a.output@.at(x, y) != green(),
        a.output@.at(x, y) == transparent() || a.output@.at(x, y) == cyan() || a.output@.at(x, y)
            == red() || a.output@.at(x, y) == violet(),
{
    assert(a.output@.contains(x, y));
    assert(a.output@.at(x, y) == composed_pixel(a.labels@, a.margin@, a.conflict@, x, y));
}

/// Every island pixel lies in the margin raster, its own dilated mask
/// covering it, so it is painted cyan, red or violet.
pub proof fn lemma_island_in_margin(config: Config, a: Analysis, x: int, y: int)
    requires
        follows_from_labels(config, a),
        a.labels@.contains(x, y),
        a.labels@.at(x, y) != 0,
    ensures
        a.margin@.at(x, y) == 255,
        a.output@.at(x, y) == cyan() || a.output@.at(x, y) == red() || a.output@.at(x, y)
            == violet(),
{
    let labels = a.labels@;
    let radius = config.margin_radius as int;
    let masks = dilated_masks(labels, a.regions@, radius);
    let k = lemma_region_of_pixel(labels, a.regions@, x, y);
    let mask = mask_of(labels, a.regions@[k].label);
    lemma_cell_index(labels.width, labels.height, x, y);
    assert(mask.contains(x, y) && mask.at(x, y) != 0 && chebyshev(x, y, x, y) <= radius);
    assert(near_foreground(mask, x, y, radius));
    lemma_dilation_unique(mask, radius, masks[k]);
    assert(masks[k].contains(x, y));
    assert(masks[k].at(x, y) != 0);
    assert(covered(masks, x, y));
    assert(a.margin@.contains(x, y));
    assert(a.output@.contains(x, y));
    assert(a.output@.at(x, y) == composed_pixel(labels, a.margin@, a.conflict@, x, y));
}

/// The margin of a region is in order exactly when every pixel of every
/// other region is farther than twice the margin radius from every pixel of
/// the region.
pub proof fn lemma_margin_ok_iff_far(config: Config, a: Analysis, k: int)
    requires
        follows_from_labels(config, a),
        0 <= k < a.regions@.len(),
    ensures
        a.statuses@[k].margin_ok <==> forall|j: int|
            0 <= j < a.regions@.len() && j != k ==> !masks_within(
                mask_of(a.labels@, a.regions@[k].label),
                #[trigger] mask_of(a.labels@, a.regions@[j].label),
                2 * config.margin_radius,
            ),
{
    let labels = a.labels@;
    let regions = a.regions@;
    let radius = config.margin_radius as int;
    let masks = dilated_masks(labels, regions, radius);
    let own = mask_of(labels, regions[k].label);
    assert(a.statuses@[k] == status_of(labels, regions, config, k));
    assert forall|j: int| 0 <= j < regions.len() && j != k implies (masks_meet(
        masks[k],
        #[trigger] masks[j],
    ) <==> masks_within(own, mask_of(labels, regions[j].label), 2 * radius)) by {
        lemma_dilations_meet_iff_close(own, mask_of(labels, regions[j].label), radius);
    }
    if keeps_clear(masks, k) {
        assert forall|j: int| 0 <= j < regions.len() && j != k implies !masks_within(
            own,
            #[trigger] mask_of(labels, regions[j].label),
            2 * radius,
        ) by {
            assert(!masks_meet(masks[k], masks[j]));
        }
    } else {
        let j = choose|j: int|
            0 <= j < masks.len() && j != k && masks_meet(masks[k], #[trigger] masks[j]);
        assert(masks_within(own, mask_of(labels, regions[j].label), 2 * radius));
    }
}

/// Two foreground pixels of different components both lie within `radius`
/// of `(x, y)`.
pub open spec fn between_components(occ: RasterView<u8>, x: int, y: int, radius: int) -> bool {
    exists|px: int, py: int, qx: int, qy: int|
        #![trigger occ.at(px, py), occ.at(qx, qy)]
        occ.contains(px, py) && occ.contains(qx, qy) && occ.at(px, py) != 0 && occ.at(qx, qy) != 0
            && chebyshev(x, y, px, py) <= radius && chebyshev(x, y, qx, qy) <= radius && !connected(
            occ,
            px,
            py,
            qx,
            qy,
        )
}

/// The dilated mask of region `k` is set at a pixel exactly when a pixel
/// of the region lies within the radius.
proof fn lemma_mask_covers(
    labels: RasterView<u32>,
    regions: Seq<Region>,
    radius: int,
    k: int,
    x: int,
    y: int,
)
    requires
        labels.wf(),
        0 <= k < regions.len(),
        labels.contains(x, y),
    ensures
        dilated_masks(labels, regions, radius)[k].at(x, y) != 0 <==> near_foreground(
            mask_of(labels, regions[k].label),
            x,
            y,
            radius,
        ),
{
    let mask = mask_of(labels, regions[k].label);
    lemma_dilation_unique(mask, radius, dilation_of(mask, radius));
    assert(dilation_of(mask, radius).contains(x, y));
}

/// The margin raster is the dilated foreground: a pixel is in the margin
/// exactly when some foreground pixel of the source lies within the margin
/// radius of it.
pub proof fn lemma_margin_from_source(
    src: RasterView<Rgba>,
    config: Config,
    a: Analysis,
    x: int,
    y: int,
)
    requires
        src.wf(),
        is_analysis(src, config, a),
        src.contains(x, y),
    ensures
        a.margin@.at(x, y) != 0 <==> near_foreground(
            occupancy_of(src, config.alpha_threshold),
            x,
            y,
            config.margin_radius as int,
        ),
{
    let occ = occupancy_of(src, config.alpha_threshold);
    let labels = a.labels@;
    let regions = a.regions@;
    let radius = config.margin_radius as int;
    let masks = dilated_masks(labels, regions, radius);
    assert(a.margin@.contains(x, y));
    if covered(masks, x, y) {
        let k = choose|k: int| 0 <= k < masks.len() && (#[trigger] masks[k]).at(x, y) != 0;
        lemma_mask_covers(labels, regions, radius, k, x, y);
        let mask = mask_of(labels, regions[k].label);
        let (px, py) = choose|px: int, py: int|
            mask.contains(px, py) && #[trigger] mask.at(px, py) != 0 && chebyshev(x, y, px, py)
                <= radius;
        lemma_cell_index(labels.width, labels.height, px, py);
        assert(labels.at(px, py) == regions[k].label);
        assert(describes(labels, regions[k]));
        assert(occ.contains(px, py) && occ.at(px, py) != 0);
    }
    if near_foreground(occ, x, y, radius) {
        let (px, py) = choose|px: int, py: int|
            occ.contains(px, py) && #[trigger] occ.at(px, py) != 0 && chebyshev(x, y, px, py)
                <= radius;
        assert(labels.at(px, py) != 0);
        let k = lemma_region_of_pixel(labels, regions, px, py);
        let mask = mask_of(labels, regions[k].label);
        lemma_cell_index(labels.width, labels.height, px, py);
        assert(mask.contains(px, py) && mask.at(px, py) != 0);
        lemma_mask_covers(labels, regions, radius, k, x, y);
        assert(masks[k].at(x, y) != 0);
    }
}

/// The conflict raster marks the pixels between islands: a pixel is in
/// conflict exactly when two foreground pixels of the source that no chain
/// connects both lie within the margin radius of it.
pub proof fn lemma_conflict_from_source(
    src: RasterView<Rgba>,
    config: Config,
    a: Analysis,
    x: int,
    y: int,
)
    requires
        src.wf(),
        is_analysis(src, config, a),
        src.contains(x, y),
    ensures
        a.conflict@.at(x, y) != 0 <==> between_components(
            occupancy_of(src, config.alpha_threshold),
            x,
            y,
            config.margin_radius as int,
        ),
{
    let occ = occupancy_of(src, config.alpha_threshold);
    let labels = a.labels@;
    let regions = a.regions@;
    let radius = config.margin_radius as int;
    let masks = dilated_masks(labels, regions, radius);
    assert(a.conflict@.contains(x, y));
    if contested(masks, x, y) {
        let (k1, k2) = choose|k1: int, k2: int|
            0 <= k1 < k2 < masks.len() && (#[trigger] masks[k1]).at(x, y) != 0 && (
            #[trigger] masks[k2]).at(x, y) != 0;
        lemma_mask_covers(labels, regions, radius, k1, x, y);
        lemma_mask_covers(labels, regions, radius, k2, x, y);
        let m1 = mask_of(labels, regions[k1].label);
        let m2 = mask_of(labels, regions[k2].label);
        let (px, py) = choose|px: int, py: int|
            m1.contains(px, py) && #[trigger] m1.at(px, py) != 0 && chebyshev(x, y, px, py)
                <= radius;
        let (qx, qy) = choose|qx: int, qy: int|
            m2.contains(qx, qy) && #[trigger] m2.at(qx, qy) != 0 && chebyshev(x, y, qx, qy)
                <= radius;
        lemma_cell_index(labels.width, labels.height, px, py);
        lemma_cell_index(labels.width, labels.height, qx, qy);
        assert(labels.at(px, py) == regions[k1].label);
        assert(labels.at(qx, qy) == regions[k2].label);
        assert(describes(labels, regions[k1]) && describes(labels, regions[k2]));
        lemma_region_labels_distinct(labels, regions, k1, k2);
        assert(occ.contains(px, py) && occ.contains(qx, qy));
        assert(occ.at(px, py) != 0 && occ.at(qx, qy) != 0);
        assert(!connected(occ, px, py, qx, qy));
    }
    if between_components(occ, x, y, radius) {
        let (px, py, qx, qy) = choose|px: int, py: int, qx: int, qy: int|
            #![trigger occ.at(px, py), occ.at(qx, qy)]
            occ.contains(px, py) && occ.contains(qx, qy) && occ.at(px, py) != 0 && occ.at(qx, qy)
                != 0 && chebyshev(x, y, px, py) <= radius && chebyshev(x, y, qx, qy) <= radius
                && !connected(occ, px, py, qx, qy);
        assert(labels.at(px, py) != 0 && labels.at(qx, qy) != 0);
        assert(labels.at(px, py) != labels.at(qx, qy));
        let k1 = lemma_region_of_pixel(labels, regions, px, py);
        let k2 = lemma_region_of_pixel(labels, regions, qx, qy);
        let m1 = mask_of(labels, regions[k1].label);
        let m2 = mask_of(labels, regions[k2].label);
        lemma_cell_index(labels.width, labels.height, px, py);
        lemma_cell_index(labels.width, labels.height, qx, qy);
        assert(m1.contains(px, py) && m1.at(px, py) != 0);
        assert(m2.contains(qx, qy) && m2.at(qx, qy) != 0);
        lemma_mask_covers(labels, regions, radius, k1, x, y);
        lemma_mask_covers(labels, regions, radius, k2, x, y);
        assert(masks[k1].at(x, y) != 0 && masks[k2].at(x, y) != 0);
        if k1 < k2 {
            assert(contested(masks, x, y));
        } else {
            assert(0 <= k2 < k1 < masks.len() && masks[k2].at(x, y) != 0 && masks[k1].at(x, y) != 0);
            assert(contested(masks, x, y));
        }
    }
}

/// Two labellings of one occupancy raster split the pixels in the same way.
proof fn lemma_labellings_agree(occ: RasterView<u8>, l1: RasterView<u32>, l2: RasterView<u32>)
    requires
        occ.wf(),
        is_labelling(occ, l1),
        is_labelling(occ, l2),
    ensures
        same_partition(l1, l2),
{
    let w = occ.width;
    let h = occ.height;
    assert forall|i: int| 0 <= i < l1.cells.len() implies (#[trigger] l1.cells[i] == 0
        <==> l2.cells[i] == 0) by {
        lemma_index_coords(w, h, i);
        assert(l1.at(i % w, i / w) == l1.cells[i]);
        assert(l2.at(i % w, i / w) == l2.cells[i]);
    }
    assert forall|i: int, j: int| 0 <= i < l1.cells.len() && 0 <= j < l1.cells.len() implies (
    #[trigger] l1.cells[i] == #[trigger] l1.cells[j] <==> l2.cells[i] == l2.cells[j]) by {
        lemma_index_coords(w, h, i);
        lemma_index_coords(w, h, j);
        let (xi, yi) = (i % w, i / w);
        let (xj, yj) = (j % w, j / w);
        assert(l1.at(xi, yi) == l1.cells[i] && l2.at(xi, yi) == l2.cells[i]);
        assert(l1.at(xj, yj) == l1.cells[j] && l2.at(xj, yj) == l2.cells[j]);
        assert(occ.at(xi, yi) == occ.cells[i] && occ.at(xj, yj) == occ.cells[j]);
    }
}

/// Label sequences that split the cells in the same way have the same
/// anchors.
proof fn lemma_same_anchors(c1: Seq<u32>, c2: Seq<u32>, n: int)
    requires
        0 <= n <= c1.len(),
        c1.len() == c2.len(),
        forall|i: int| 0 <= i < c1.len() ==> (#[trigger] c1[i] == 0 <==> c2[i] == 0),
        forall|i: int, j: int|
            0 <= i < c1.len() && 0 <= j < c1.len() ==> (#[trigger] c1[i] == #[trigger] c1[j]
                <==> c2[i] == c2[j]),
    ensures
        anchors(c1, n) == anchors(c2, n),
    decreases n,
{
    if n > 0 {
        lemma_same_anchors(c1, c2, n - 1);
        let i = n - 1;
        if is_anchor(c1, i) {
            assert forall|j: int| 0 <= j < i implies c2[j] != c2[i] by {
                assert(c1[j] != c1[i]);
            }
        }
        if is_anchor(c2, i) {
            assert forall|j: int| 0 <= j < i implies c1[j] != c1[i] by {
                assert(c2[j] != c2[i]);
            }
        }
    }
}

/// Labels that mark the same cells occur equally often.
proof fn lemma_same_count(c1: Seq<u32>, c2: Seq<u32>, v1: u32, v2: u32, n: int)
    requires
        0 <= n <= c1.len(),
        c1.len() == c2.len(),
        same_cells(c1, c2, v1, v2),
    ensures
        count_label(c1, v1, n) == count_label(c2, v2, n),
    decreases n,
{
    if n > 0 {
        lemma_same_count(c1, c2, v1, v2, n - 1);
        assert(c1[n - 1] == v1 <==> c2[n - 1] == v2);
    }
}

/// Of two records whose labels mark the same pixels, the box of the
/// first lies within the box of the second.
proof fn lemma_box_within(l1: RasterView<u32>, l2: RasterView<u32>, r1: Region, r2: Region)
    requires
        l1.wf(),
        l2.wf(),
        l1.same_shape(l2),
        describes(l1, r1),
        describes(l2, r2),
        same_cells(l1.cells, l2.cells, r1.label, r2.label),
    ensures
        r2.min_x <= r1.min_x,
        r2.min_y <= r1.min_y,
        r1.max_x <= r2.max_x,
        r1.max_y <= r2.max_y,
{
    let w = l1.width;
    let h = l1.height;
    assert forall|x: int, y: int| l1.contains(x, y) && l1.at(x, y) == r1.label implies l2.at(x, y)
        == r2.label by {
        lemma_cell_index(w, h, x, y);
        assert(l1.cells[y * w + x] == r1.label);
    }
    let ya = choose|y: int| 0 <= y < l1.height && #[trigger] l1.at(r1.min_x as int, y) == r1.label;
    assert(l2.at(r1.min_x as int, ya) == r2.label);
    let yb = choose|y: int| 0 <= y < l1.height && #[trigger] l1.at(r1.max_x as int, y) == r1.label;
    assert(l2.at(r1.max_x as int, yb) == r2.label);
    let xa = choose|x: int| 0 <= x < l1.width && #[trigger] l1.at(x, r1.min_y as int) == r1.label;
    assert(l2.at(xa, r1.min_y as int) == r2.label);
    let xb = choose|x: int| 0 <= x < l1.width && #[trigger] l1.at(x, r1.max_y as int) == r1.label;
    assert(l2.at(xb, r1.max_y as int) == r2.label);
}

/// Records of equal extent with the same verdicts give the same report
/// entries.
proof fn lemma_same_entries(
    rs1: Seq<Region>,
    rs2: Seq<Region>,
    statuses: Seq<RegionStatus>,
    n: int,
)
    requires
        0 <= n <= rs1.len(),
        rs1.len() == rs2.len(),
        forall|k: int| 0 <= k < rs1.len() ==> same_extent(#[trigger] rs1[k], rs2[k]),
    ensures
        entries_of(rs1, statuses, n) == entries_of(rs2, statuses, n),
    decreases n,
{
    if n > 0 {
        lemma_same_entries(rs1, rs2, statuses, n - 1);
        assert(same_extent(rs1[n - 1], rs2[n - 1]));
        assert(entry_of(rs1[n - 1], statuses[n - 1]) == entry_of(rs2[n - 1], statuses[n - 1]));
    }
}

/// The analysis does not depend on how the regions are numbered: two
/// results whose label rasters split the pixels in the same way have the
/// same margin and conflict rasters, the same region extents and verdicts
/// in the same order, the same output raster and the same report.
pub proof fn lemma_relabelling_invariance(config: Config, a1: Analysis, a2: Analysis)
    requires
        follows_from_labels(config, a1),
        follows_from_labels(config, a2),
        same_partition(a1.labels@, a2.labels@),
    ensures
        a1.regions@.len() == a2.regions@.len(),
        forall|k: int|
            0 <= k < a1.regions@.len() ==> same_extent(#[trigger] a1.regions@[k], a2.regions@[k]),
        a1.statuses@ == a2.statuses@,
        a1.margin@ == a2.margin@,
        a1.conflict@ == a2.conflict@,
        a1.output@ == a2.output@,
        a1.report@ == a2.report@,
{
    let l1 = a1.labels@;
    let l2 = a2.labels@;
    let rs1 = a1.regions@;
    let rs2 = a2.regions@;
    let n = l1.cells.len() as int;
    let radius = config.margin_radius as int;
    lemma_same_anchors(l1.cells, l2.cells, n);
    lemma_anchors_sorted(l1.cells, n);
    let firsts = anchors(l1.cells, n);
    assert(rs1.len() == rs2.len());
    assert forall|k: int| 0 <= k < rs1.len() implies same_cells(
        l1.cells,
        l2.cells,
        (#[trigger] rs1[k]).label,
        rs2[k].label,
    ) && same_cells(l2.cells, l1.cells, rs2[k].label, rs1[k].label) by {
        let f = firsts[k];
        assert(rs1[k].label == l1.cells[f]);
        assert(rs2[k].label == l2.cells[f]);
        assert forall|i: int| 0 <= i < n implies (#[trigger] l1.cells[i] == rs1[k].label
            <==> l2.cells[i] == rs2[k].label) by {
            assert(l1.cells[i] == l1.cells[f] <==> l2.cells[i] == l2.cells[f]);
        }
    }
    assert forall|k: int| 0 <= k < rs1.len() implies same_extent(#[trigger] rs1[k], rs2[k]) by {
        assert(describes(l1, rs1[k]));
        assert(describes(l2, rs2[k]));
        lemma_same_count(l1.cells, l2.cells, rs1[k].label, rs2[k].label, n);
        lemma_box_within(l1, l2, rs1[k], rs2[k]);
        lemma_box_within(l2, l1, rs2[k], rs1[k]);
    }
    let m1 = dilated_masks(l1, rs1, radius);
    let m2 = dilated_masks(l2, rs2, radius);
    assert forall|k: int| 0 <= k < m1.len() implies m1[k] == m2[k] by {
        assert(same_cells(l1.cells, l2.cells, rs1[k].label, rs2[k].label));
        assert(mask_of(l1, rs1[k].label).cells =~= mask_of(l2, rs2[k].label).cells);
    }
    assert(m1 =~= m2);
    lemma_same_pixels(a1.margin@, a2.margin@);
    lemma_same_pixels(a1.conflict@, a2.conflict@);
    assert forall|k: int| 0 <= k < a1.statuses@.len() implies a1.statuses@[k] == a2.statuses@[k] by {
        assert(a1.statuses@[k] == status_of(l1, rs1, config, k));
        assert(a2.statuses@[k] == status_of(l2, rs2, config, k));
        assert(same_extent(rs1[k], rs2[k]));
        assert(bbox_area(rs1[k]) == bbox_area(rs2[k]));
    }
    assert(a1.statuses@ =~= a2.statuses@);
    assert forall|x: int, y: int| a1.output@.contains(x, y) implies #[trigger] a1.output@.at(x, y)
        == a2.output@.at(x, y) by {
        lemma_cell_index(l1.width, l1.height, x, y);
        assert(l1.cells[y * l1.width + x] == 0 <==> l2.cells[y * l1.width + x] == 0);
        assert(a1.output@.at(x, y) == composed_pixel(l1, a1.margin@, a1.conflict@, x, y));
        assert(a2.output@.contains(x, y));
        assert(a2.output@.at(x, y) == composed_pixel(l2, a2.margin@, a2.conflict@, x, y));
    }
    lemma_same_pixels(a1.output@, a2.output@);
    lemma_same_entries(rs1, rs2, a1.statuses@, rs1.len() as int);
}

/// Running the analysis twice on one source gives the same output raster
/// and the same report, bit for bit, even if the two runs number the
/// regions differently.
pub proof fn lemma_analysis_repeatable(
    src: RasterView<Rgba>,
    config: Config,
    a1: Analysis,
    a2: Analysis,
)
    requires
        src.wf(),
        is_analysis(src, config, a1),
        is_analysis(src, config, a2),
    ensures
        a1.output@ == a2.output@,
        a1.report@ == a2.report@,
        a1.statuses@ == a2.statuses@,
        a1.margin@ == a2.margin@,
        a1.conflict@ == a2.conflict@,
        a1.regions@.len() == a2.regions@.len(),
        forall|k: int|
            0 <= k < a1.regions@.len() ==> same_extent(#[trigger] a1.regions@[k], a2.regions@[k]),
{
    lemma_labellings_agree(occupancy_of(src, config.alpha_threshold), a1.labels@, a2.labels@);
    lemma_relabelling_invariance(config, a1, a2);
}

} // verus!
