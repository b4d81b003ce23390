//! Region status and the issue report.

use vstd::prelude::*;
use crate::regions::Region;

verus! {

/// The verdict on one region.
#[derive(Clone, Copy, Debug, PartialEq, Eq, Structural)]
pub struct RegionStatus {
    /// The region fills too little of its bounding box.
    pub is_problem: bool,
    /// The region's margin keeps clear of every other region's margin.
    pub margin_ok: bool,
}

/// One line of the report: a flagged region.
#[derive(Clone, Copy, Debug, PartialEq, Eq, Structural)]
pub struct ReportEntry {
    pub pixel_count: u32,
    pub density_percent: u64,
    pub bbox_width: u64,
    pub bbox_height: u64,
    pub margin_ok: bool,
}

/// The issue report of one analysis: the number of regions and one entry
/// for each flagged region.
#[derive(Clone, Debug, PartialEq, Eq)]
pub struct Report {
    pub total_labels: usize,
    pub entries: Vec<ReportEntry>,
}

/// The mathematical view of a report.
pub struct ReportView {
    pub total_labels: int,
    pub entries: Seq<ReportEntry>,
}

impl View for Report {
    type V = ReportView;

    open spec fn view(&self) -> ReportView {
        ReportView { total_labels: self.total_labels as int, entries: self.entries@ }
    }
}

/// The number of pixels from `lo` to `hi` inclusive; a reversed pair counts
/// as a single pixel.
pub open spec fn span(lo: u32, hi: u32) -> int {
    if hi >= lo {
        hi - lo + 1
    } else {
        1
    }
}

/// The width of a region's bounding box.
pub open spec fn bbox_width(r: Region) -> int {
    span(r.min_x, r.max_x)
}

/// The height of a region's bounding box.
pub open spec fn bbox_height(r: Region) -> int {
    span(r.min_y, r.max_y)
}

/// The number of pixels in a region's bounding box.
pub open spec fn bbox_area(r: Region) -> int {
    bbox_width(r) * bbox_height(r)
}

/// The region fills less than one `ratio`-th of its bounding box.
pub open spec fn is_sparse(r: Region, ratio: u32) -> bool {
    r.pixel_count * ratio < bbox_area(r)
}

/// The share of its bounding box that a region fills, in whole percent,
/// rounded down.
pub open spec fn density_percent(r: Region) -> int {
    (r.pixel_count * 100) / bbox_area(r)
}

/// A region is reported when it is a problem or its margin is not clear.
pub open spec fn is_flagged(s: RegionStatus) -> bool {
    s.is_problem || !s.margin_ok
}

/// The report entry of a region with the given status.
pub open spec fn entry_of(r: Region, s: RegionStatus) -> ReportEntry {
    ReportEntry {
        pixel_count: r.pixel_count,
        density_percent: density_percent(r) as u64,
        bbox_width: bbox_width(r) as u64,
        bbox_height: bbox_height(r) as u64,
        margin_ok: s.margin_ok,
    }
}

/// The entries of the flagged regions among the first `n`, in order.
pub open spec fn entries_of(regions: Seq<Region>, statuses: Seq<RegionStatus>, n: int) -> Seq<
    ReportEntry,
>
    decreases n,
{
    if n <= 0 {
        Seq::empty()
    } else if is_flagged(statuses[n - 1]) {
        entries_of(regions, statuses, n - 1).push(entry_of(regions[n - 1], statuses[n - 1]))
    } else {
        entries_of(regions, statuses, n - 1)
    }
}

/// The report on the given regions.
pub open spec fn report_of(regions: Seq<Region>, statuses: Seq<RegionStatus>) -> ReportView {
    ReportView {
        total_labels: regions.len() as int,
        entries: entries_of(regions, statuses, regions.len() as int),
    }
}

/// A bounding box is at least one pixel and at most 2^32 pixels wide and
/// high.
proof fn lemma_area_bounds(r: Region)
    ensures
        1 <= bbox_width(r) <= 0x1_0000_0000,
        1 <= bbox_height(r) <= 0x1_0000_0000,
        1 <= bbox_area(r) <= 0x1_0000_0000_0000_0000,
{
    let w = bbox_width(r);
    let h = bbox_height(r);
    assert(1 <= w * h <= 0x1_0000_0000_0000_0000) by (nonlinear_arith)
        requires
            1 <= w <= 0x1_0000_0000,
            1 <= h <= 0x1_0000_0000,
    ;
}

impl Region {
    /// The width of the bounding box.
    pub fn bbox_width(&self) -> (w: u64)
        ensures
            w == bbox_width(*self),
    {
        self.max_x.saturating_sub(self.min_x) as u64 + 1
    }

    /// The height of the bounding box.
    pub fn bbox_height(&self) -> (h: u64)
        ensures
            h == bbox_height(*self),
    {
        self.max_y.saturating_sub(self.min_y) as u64 + 1
    }

    /// The number of pixels in the bounding box.
    pub fn bbox_area(&self) -> (a: u128)
        ensures
            a == bbox_area(*self),
    {
        proof {
            lemma_area_bounds(*self);
        }
        self.bbox_width() as u128 * self.bbox_height() as u128
    }

    /// Whether the region fills less than one `ratio`-th of its bounding
    /// box: the sign of a holed, degenerate or self-overlapping island.
    pub fn is_sparse(&self, ratio: u32) -> (sparse: bool)
        ensures
            sparse == is_sparse(*self, ratio),
    {
        proof {
            assert(self.pixel_count * ratio <= 0x1_0000_0000 * 0x1_0000_0000) by (nonlinear_arith)
                requires
                    self.pixel_count <= 0x1_0000_0000,
                    ratio <= 0x1_0000_0000,
            ;
        }
        (self.pixel_count as u128) * (ratio as u128) < self.bbox_area()
    }

    /// The share of the bounding box that the region fills, in whole
    /// percent, rounded down.
    pub fn density_percent(&self) -> (p: u64)
        ensures
            p == density_percent(*self),
    {
        proof {
            lemma_area_bounds(*self);
        }
        let area: u128 = self.bbox_area();
        let scaled: u128 = self.pixel_count as u128 * 100;
        let p: u128 = scaled / area;
        proof {
            assert(p <= scaled) by (nonlinear_arith)
                requires
                    p == scaled / area,
                    area >= 1,
                    scaled >= 0,
            ;
        }
        p as u64
    }
}

/// Writes the report: the number of regions, and for each region that is a
/// problem or whose margin is not clear, its pixel count, density, box
/// size and margin verdict.
pub fn build_report(regions: &Vec<Region>, statuses: &Vec<RegionStatus>) -> (report: Report)
    requires
        regions.len() == statuses.len(),
    ensures
        report@ == report_of(regions@, statuses@),
{
    let mut entries: Vec<ReportEntry> = Vec::new();
    let mut k: usize = 0;
    while k < regions.len()
        invariant
            regions.len() == statuses.len(),
            k <= regions.len(),
            entries@ == entries_of(regions@, statuses@, k as int),
        decreases regions.len() - k,
    {
        let r: Region = regions[k];
        let s: RegionStatus = statuses[k];
        if s.is_problem || !s.margin_ok {
            entries.push(
                ReportEntry {
                    pixel_count: r.pixel_count,
                    density_percent: r.density_percent(),
                    bbox_width: r.bbox_width(),
                    bbox_height: r.bbox_height(),
                    margin_ok: s.margin_ok,
                },
            );
        }
        k += 1;
    }
    Report { total_labels: regions.len(), entries }
}

impl Report {
    /// The number of flagged regions.
    pub fn flagged(&self) -> (n: usize)
        ensures
            n == self@.entries.len(),
    {
        self.entries.len()
    }
}

} // verus!
