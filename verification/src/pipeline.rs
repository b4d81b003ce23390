//! The analysis pipeline: from a source texture to the colour-coded output
//! raster and the issue report.

use vstd::prelude::*;
use crate::colour::{green, Rgba};
use crate::compose::{compose, is_composition};
use crate::dilation::{build_mask, dilate, dilation_of, mask_of};
use crate::foreground::{extract_foreground, occupancy_of};
use crate::labelling::{is_labelling, label_regions};
use crate::overlap::{
    is_conflict_raster, is_margin_raster, keeps_clear, lemma_clear_iff_conflict_free, masks_fit,
    masks_overlap, overlay_masks,
};
use crate::raster::{views, Raster, RasterView};
use crate::regions::{collect_regions, regions_of, Region};
use crate::report::{build_report, is_sparse, report_of, RegionStatus, Report};

verus! {

/// The tunable constants of the analysis.
#[derive(Clone, Copy, Debug, PartialEq, Eq, Structural)]
pub struct Config {
    /// A pixel is foreground when its alpha exceeds this value.
    pub alpha_threshold: u8,
    /// The safety margin around an island, in pixels of Chebyshev distance.
    pub margin_radius: u8,
    /// An island is a problem when it fills less than one part in this many
    /// of its bounding box. A heuristic, not a law.
    pub density_ratio: u32,
}

/// The constants of the standard analysis: alpha above 128 is foreground,
/// the margin is 8 pixels, and an island should fill a third of its box.
pub open spec fn standard_config() -> Config {
    Config { alpha_threshold: 128, margin_radius: 8, density_ratio: 3 }
}

impl Config {
    /// The margin radius is below 255, the value at which distances
    /// measured in 8 bits saturate.
    pub open spec fn wf(self) -> bool {
        self.margin_radius < 255
    }
}

impl Default for Config {
    fn default() -> (config: Config)
        ensures
            config == standard_config(),
            config.wf(),
    {
        Config { alpha_threshold: 128, margin_radius: 8, density_ratio: 3 }
    }
}

/// Everything one analysis run produces.
#[derive(Clone, Debug, PartialEq, Eq)]
pub struct Analysis {
    /// The label raster: 0 on the background, one label per island.
    pub labels: Raster<u32>,
    /// One record per island, in order of first appearance row by row.
    pub regions: Vec<Region>,
    /// The verdict on each island, in the order of `regions`.
    pub statuses: Vec<RegionStatus>,
    /// The union of the islands' dilated masks.
    pub margin: Raster<u8>,
    /// Where the dilated masks of two islands overlap.
    pub conflict: Raster<u8>,
    /// The colour-coded classification of every pixel.
    pub output: Raster<Rgba>,
    /// The issue report.
    pub report: Report,
}

/// The dilated masks of the regions, in the order of `regions`.
pub open spec fn dilated_masks(labels: RasterView<u32>, regions: Seq<Region>, radius: int) -> Seq<
    RasterView<u8>,
> {
    Seq::new(regions.len(), |k: int| dilation_of(mask_of(labels, regions[k].label), radius))
}

/// The verdict on region `k`: it is a problem when it is sparse, and its
/// margin is in order when its dilated mask meets no other region's.
pub open spec fn status_of(
    labels: RasterView<u32>,
    regions: Seq<Region>,
    config: Config,
    k: int,
) -> RegionStatus {
    RegionStatus {
        is_problem: is_sparse(regions[k], config.density_ratio),
        margin_ok: keeps_clear(dilated_masks(labels, regions, config.margin_radius as int), k),
    }
}

/// `a` holds the statistics, margins, classification and report that belong
/// to its label raster.
pub open spec fn follows_from_labels(config: Config, a: Analysis) -> bool {
    let labels = a.labels@;
    let masks = dilated_masks(labels, a.regions@, config.margin_radius as int);
    &&& labels.wf()
    &&& regions_of(labels, a.regions@)
    &&& a.statuses@.len() == a.regions@.len()
    &&& forall|k: int|
        0 <= k < a.regions@.len() ==> #[trigger] a.statuses@[k] == status_of(
            labels,
            a.regions@,
            config,
            k,
        )
    &&& is_margin_raster(masks, labels.width, labels.height, a.margin@)
    &&& is_conflict_raster(masks, labels.width, labels.height, a.conflict@)
    &&& is_composition(labels, a.margin@, a.conflict@, a.output@)
    &&& a.report@ == report_of(a.regions@, a.statuses@)
}

/// `a` is an analysis of the source raster `src`.
pub open spec fn is_analysis(src: RasterView<Rgba>, config: Config, a: Analysis) -> bool {
    &&& is_labelling(occupancy_of(src, config.alpha_threshold), a.labels@)
    &&& follows_from_labels(config, a)
}

/// Dilates the mask of every region.
fn dilate_regions(labels: &Raster<u32>, regions: &Vec<Region>, radius: u8) -> (dilated: Vec<
    Raster<u8>,
>)
    requires
        labels.wf(),
        labels.width + labels.height <= u32::MAX,
        radius < 255,
    ensures
        views(dilated@) == dilated_masks(labels@, regions@, radius as int),
        masks_fit(views(dilated@), labels.width as int, labels.height as int),
{
    let mut dilated: Vec<Raster<u8>> = Vec::new();
    let mut k: usize = 0;
    while k < regions.len()
        invariant
            labels.wf(),
            labels.width + labels.height <= u32::MAX,
            radius < 255,
            k <= regions.len(),
            dilated.len() == k,
            forall|j: int|
                0 <= j < k ==> (#[trigger] dilated[j])@ == dilation_of(
                    mask_of(labels@, regions[j].label),
                    radius as int,
                ) && dilated[j].wf(),
        decreases regions.len() - k,
    {
        let mask = build_mask(labels, regions[k].label);
        let grown = dilate(&mask, radius);
        dilated.push(grown);
        k += 1;
    }
    assert(views(dilated@) =~= dilated_masks(labels@, regions@, radius as int));
    dilated
}

/// Runs every stage after the labelling on a label raster: statistics,
/// masks and margins, overlap detection, compositing and the report.
pub fn analyze_labels(labels: Raster<u32>, config: &Config) -> (a: Analysis)
    requires
        labels.wf(),
        labels.width * labels.height <= u32::MAX,
        labels.width + labels.height <= u32::MAX,
        config.wf(),
    ensures
        a.labels == labels,
        follows_from_labels(*config, a),
        a.output@.same_shape(labels@),
        forall|x: int, y: int|
            labels@.contains(x, y) && labels@.at(x, y) == 0 ==> #[trigger] a.output@.at(x, y)
                != green(),
{
    let regions = collect_regions(&labels);
    let dilated = dilate_regions(&labels, &regions, config.margin_radius);
    let ghost masks = views(dilated@);
    let (margin, conflict) = overlay_masks(&dilated, labels.width, labels.height);
    let mut statuses: Vec<RegionStatus> = Vec::new();
    let mut k: usize = 0;
    assert(dilated.len() == masks.len());
    while k < regions.len()
        invariant
            dilated.len() == regions.len(),
            masks == views(dilated@),
            masks == dilated_masks(labels@, regions@, config.margin_radius as int),
            masks_fit(masks, labels.width as int, labels.height as int),
            conflict.wf(),
            is_conflict_raster(masks, labels.width as int, labels.height as int, conflict@),
            k <= regions.len(),
            statuses.len() == k,
            forall|j: int|
                0 <= j < k ==> #[trigger] statuses[j] == status_of(labels@, regions@, *config, j),
        decreases regions.len() - k,
    {
        let is_problem: bool = regions[k].is_sparse(config.density_ratio);
        assert(masks[k as int] == dilated[k as int]@);
        let margin_ok: bool = !masks_overlap(&dilated[k], &conflict);
        proof {
            lemma_clear_iff_conflict_free(
                masks,
                labels.width as int,
                labels.height as int,
                conflict@,
                k as int,
            );
        }
        statuses.push(RegionStatus { is_problem, margin_ok });
        k += 1;
    }
    let output = compose(&labels, &margin, &conflict);
    let report = build_report(&regions, &statuses);
    Analysis { labels, regions, statuses, margin, conflict, output, report }
}

/// Analyzes a UV-layout texture: extracts the foreground, labels the
/// islands, measures them, builds their margins, finds the conflicts and
/// paints the classification.
pub fn analyze_uv(src: &Raster<Rgba>, config: &Config) -> (a: Analysis)
    requires
        src.wf(),
        src.width * src.height <= u32::MAX,
        src.width + src.height <= u32::MAX,
        config.wf(),
    ensures
        is_analysis(src@, *config, a),
        a.output@.same_shape(src@),
        forall|x: int, y: int|
            src@.contains(x, y) && a.labels@.at(x, y) == 0 ==> #[trigger] a.output@.at(x, y)
                != green(),
{
    let occupancy = extract_foreground(src, config.alpha_threshold);
    let labels = label_regions(&occupancy);
    analyze_labels(labels, config)
}

} // verus!
