//! A coarse margin test on bounding boxes alone.
//!
//! Comparing boxes costs nothing next to comparing dilated masks. The test
//! is one-sided: boxes that are far apart prove that the margins are clear,
//! boxes that are close prove nothing.

use vstd::prelude::*;
use crate::dilation::{dilation_of, lemma_dilations_meet_iff_close, mask_of, masks_within};
use crate::geometry::{box_gap, chebyshev, lemma_box_gap_bounds_distance, min_distance_bounds};
use crate::overlap::{keeps_clear, masks_meet};
use crate::pipeline::{dilated_masks, follows_from_labels, status_of, Analysis, Config};
use crate::raster::{lemma_cell_index, RasterView};
use crate::regions::{bounds_of, describes, Region};

verus! {

/// The box of region `k` is separated by at least `threshold` from the box
/// of every other region.
pub open spec fn boxes_apart(regions: Seq<Region>, k: int, threshold: int) -> bool {
    forall|j: int|
        0 <= j < regions.len() && j != k ==> box_gap(
            bounds_of(regions[k]),
            bounds_of(#[trigger] regions[j]),
        ) >= threshold
}

/// Tests whether the bounding box of region `k` keeps a separation of at
/// least `threshold` from the bounding box of every other region.
pub fn boxes_keep_apart(regions: &Vec<Region>, k: usize, threshold: u32) -> (apart: bool)
    requires
        k < regions.len(),
    ensures
        apart == boxes_apart(regions@, k as int, threshold as int),
{
    let own = regions[k].bounds();
    let mut j: usize = 0;
    while j < regions.len()
        invariant
            k < regions.len(),
            j <= regions.len(),
            own == bounds_of(regions[k as int]),
            forall|i: int|
                0 <= i < j && i != k ==> box_gap(own, bounds_of(#[trigger] regions[i])) >= threshold,
        decreases regions.len() - j,
    {
        if j != k {
            let gap: u32 = min_distance_bounds(own, regions[j].bounds());
            if gap < threshold {
                assert(box_gap(bounds_of(regions[k as int]), bounds_of(regions[j as int]))
                    < threshold);
                return false;
            }
        }
        j += 1;
    }
    true
}

/// Two regions whose bounding boxes are separated by more than twice the
/// radius have dilated masks that do not meet.
pub proof fn lemma_separated_boxes_keep_clear(
    labels: RasterView<u32>,
    r1: Region,
    r2: Region,
    radius: int,
)
    requires
        labels.wf(),
        describes(labels, r1),
        describes(labels, r2),
        0 <= radius,
        box_gap(bounds_of(r1), bounds_of(r2)) > 2 * radius,
    ensures
        !masks_meet(
            dilation_of(mask_of(labels, r1.label), radius),
            dilation_of(mask_of(labels, r2.label), radius),
        ),
{
    let m1 = mask_of(labels, r1.label);
    let m2 = mask_of(labels, r2.label);
    lemma_dilations_meet_iff_close(m1, m2, radius);
    if masks_within(m1, m2, 2 * radius) {
        let (ax, ay, bx, by) = choose|ax: int, ay: int, bx: int, by: int|
            m1.contains(ax, ay) && m2.contains(bx, by) && #[trigger] m1.at(ax, ay) != 0
                && #[trigger] m2.at(bx, by) != 0 && chebyshev(ax, ay, bx, by) <= 2 * radius;
        lemma_cell_index(labels.width, labels.height, ax, ay);
        lemma_cell_index(labels.width, labels.height, bx, by);
        assert(labels.at(ax, ay) == r1.label);
        assert(labels.at(bx, by) == r2.label);
        lemma_box_gap_bounds_distance(bounds_of(r1), bounds_of(r2), ax, ay, bx, by);
    }
}

/// A region whose box keeps more than twice the margin radius from every
/// other box has its margin in order.
pub proof fn lemma_boxes_apart_margin_ok(config: Config, a: Analysis, k: int)
    requires
        follows_from_labels(config, a),
        0 <= k < a.regions@.len(),
        boxes_apart(a.regions@, k, 2 * config.margin_radius + 1),
    ensures
        a.statuses@[k].margin_ok,
{
    let labels = a.labels@;
    let regions = a.regions@;
    let radius = config.margin_radius as int;
    let masks = dilated_masks(labels, regions, radius);
    assert(a.statuses@[k] == status_of(labels, regions, config, k));
    assert forall|j: int| 0 <= j < masks.len() && j != k implies !masks_meet(
        masks[k],
        #[trigger] masks[j],
    ) by {
        assert(box_gap(bounds_of(regions[k]), bounds_of(regions[j])) >= 2 * radius + 1);
        lemma_separated_boxes_keep_clear(labels, regions[k], regions[j], radius);
    }
    assert(keeps_clear(masks, k));
}

} // verus!
