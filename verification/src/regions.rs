//! Region statistics: bounding box and pixel count of every label.

use std::collections::HashMap;
use vstd::prelude::*;
use vstd::std_specs::hash::group_hash_axioms;
use crate::raster::{lemma_cell_index, lemma_index_coords, lemma_index_split, Raster, RasterView};

verus! {

/// The record of one labelled region: its label, its inclusive bounding
/// box and the number of its pixels.
#[derive(Clone, Copy, Debug, PartialEq, Eq, Structural)]
pub struct Region {
    pub label: u32,
    pub min_x: u32,
    pub min_y: u32,
    pub max_x: u32,
    pub max_y: u32,
    pub pixel_count: u32,
}

/// The bounding box of a region as `((min_x, min_y), (max_x, max_y))`.
pub open spec fn bounds_of(r: Region) -> ((u32, u32), (u32, u32)) {
    ((r.min_x, r.min_y), (r.max_x, r.max_y))
}

impl Region {
    /// The bounding box as `((min_x, min_y), (max_x, max_y))`, corners
    /// inclusive.
    pub fn bounds(&self) -> (b: ((u32, u32), (u32, u32)))
        ensures
            b == bounds_of(*self),
    {
        ((self.min_x, self.min_y), (self.max_x, self.max_y))
    }
}

/// How many of the first `n` cells carry `label`.
pub open spec fn count_label(cells: Seq<u32>, label: u32, n: int) -> int
    decreases n,
{
    if n <= 0 {
        0
    } else {
        count_label(cells, label, n - 1) + if cells[n - 1] == label {
            1int
        } else {
            0int
        }
    }
}

/// Cell `i` is the first, in row-major order, to carry its non-zero label.
pub open spec fn is_anchor(cells: Seq<u32>, i: int) -> bool {
    cells[i] != 0 && forall|j: int| 0 <= j < i ==> cells[j] != cells[i]
}

/// The anchors among the first `n` cells, in increasing order.
pub open spec fn anchors(cells: Seq<u32>, n: int) -> Seq<int>
    decreases n,
{
    if n <= 0 {
        Seq::empty()
    } else if is_anchor(cells, n - 1) {
        anchors(cells, n - 1).push(n - 1)
    } else {
        anchors(cells, n - 1)
    }
}

/// Some pixel of column `x` carries `label`.
pub open spec fn label_in_column(labels: RasterView<u32>, label: u32, x: int) -> bool {
    exists|y: int| 0 <= y < labels.height && #[trigger] labels.at(x, y) == label
}

/// Some pixel of row `y` carries `label`.
pub open spec fn label_in_row(labels: RasterView<u32>, label: u32, y: int) -> bool {
    exists|x: int| 0 <= x < labels.width && #[trigger] labels.at(x, y) == label
}

/// `r` is the record of its label in `labels`: the count is the number of
/// pixels that carry the label, and the box is the tight axis-aligned box
/// around them.
pub open spec fn describes(labels: RasterView<u32>, r: Region) -> bool {
    &&& r.label != 0
    &&& r.pixel_count >= 1
    &&& r.pixel_count == count_label(labels.cells, r.label, labels.cells.len() as int)
    &&& r.min_x <= r.max_x < labels.width
    &&& r.min_y <= r.max_y < labels.height
    &&& forall|x: int, y: int|
        labels.contains(x, y) && #[trigger] labels.at(x, y) == r.label ==> r.min_x <= x <= r.max_x
            && r.min_y <= y <= r.max_y
    &&& label_in_column(labels, r.label, r.min_x as int)
    &&& label_in_column(labels, r.label, r.max_x as int)
    &&& label_in_row(labels, r.label, r.min_y as int)
    &&& label_in_row(labels, r.label, r.max_y as int)
}

/// `regions` holds one record for each non-zero label of `labels`, in the
/// order in which the labels first occur row by row.
pub open spec fn regions_of(labels: RasterView<u32>, regions: Seq<Region>) -> bool {
    let firsts = anchors(labels.cells, labels.cells.len() as int);
    &&& regions.len() == firsts.len()
    &&& forall|k: int|
        0 <= k < regions.len() ==> (#[trigger] regions[k]).label == labels.cells[firsts[k]]
            && describes(labels, regions[k])
}

/// `r` records the pixels of its label among the first `n` cells of a
/// raster of the given width.
spec fn describes_prefix(cells: Seq<u32>, width: int, r: Region, n: int) -> bool {
    &&& r.label != 0
    &&& r.pixel_count >= 1
    &&& r.pixel_count == count_label(cells, r.label, n)
    &&& r.min_x <= r.max_x < width
    &&& r.min_y <= r.max_y
    &&& forall|j: int|
        0 <= j < n && #[trigger] cells[j] == r.label ==> r.min_x <= j % width <= r.max_x && r.min_y
            <= j / width <= r.max_y
    &&& exists|j: int| 0 <= j < n && #[trigger] cells[j] == r.label && j % width == r.min_x
    &&& exists|j: int| 0 <= j < n && #[trigger] cells[j] == r.label && j % width == r.max_x
    &&& exists|j: int| 0 <= j < n && #[trigger] cells[j] == r.label && j / width == r.min_y
    &&& exists|j: int| 0 <= j < n && #[trigger] cells[j] == r.label && j / width == r.max_y
}

/// The record of a region that so far consists of the single pixel `(x, y)`.
spec fn single_pixel_region(label: u32, x: u32, y: u32) -> Region {
    Region { label, min_x: x, min_y: y, max_x: x, max_y: y, pixel_count: 1 }
}

/// The record `r` after the pixel `(x, y)` has joined its region.
spec fn grown(r: Region, x: u32, y: u32) -> Region {
    Region {
        label: r.label,
        min_x: if x < r.min_x {
            x
        } else {
            r.min_x
        },
        min_y: if y < r.min_y {
            y
        } else {
            r.min_y
        },
        max_x: if x > r.max_x {
            x
        } else {
            r.max_x
        },
        max_y: if y > r.max_y {
            y
        } else {
            r.max_y
        },
        pixel_count: (r.pixel_count + 1) as u32,
    }
}

/// No label occurs more often than there are cells.
pub proof fn lemma_count_bounds(cells: Seq<u32>, label: u32, n: int)
    requires
        0 <= n,
    ensures
        0 <= count_label(cells, label, n) <= n,
    decreases n,
{
    if n > 0 {
        lemma_count_bounds(cells, label, n - 1);
    }
}

/// A label that does not occur has count zero.
pub proof fn lemma_count_absent(cells: Seq<u32>, label: u32, n: int)
    requires
        0 <= n,
        forall|j: int| 0 <= j < n ==> cells[j] != label,
    ensures
        count_label(cells, label, n) == 0,
    decreases n,
{
    if n > 0 {
        lemma_count_absent(cells, label, n - 1);
    }
}

/// A cell with another label leaves a record as it is.
proof fn lemma_prefix_unaffected(cells: Seq<u32>, width: int, r: Region, n: int)
    requires
        0 <= n,
        describes_prefix(cells, width, r, n),
        cells[n] != r.label,
    ensures
        describes_prefix(cells, width, r, n + 1),
{
    let a = choose|j: int| 0 <= j < n && #[trigger] cells[j] == r.label && j % width == r.min_x;
    let b = choose|j: int| 0 <= j < n && #[trigger] cells[j] == r.label && j % width == r.max_x;
    let c = choose|j: int| 0 <= j < n && #[trigger] cells[j] == r.label && j / width == r.min_y;
    let d = choose|j: int| 0 <= j < n && #[trigger] cells[j] == r.label && j / width == r.max_y;
    assert(0 <= a < n + 1 && cells[a] == r.label && a % width == r.min_x);
    assert(0 <= b < n + 1 && cells[b] == r.label && b % width == r.max_x);
    assert(0 <= c < n + 1 && cells[c] == r.label && c / width == r.min_y);
    assert(0 <= d < n + 1 && cells[d] == r.label && d / width == r.max_y);
}

/// A cell with the label of a record grows the record by that pixel.
proof fn lemma_prefix_grown(cells: Seq<u32>, width: int, r: Region, n: int, x: u32, y: u32)
    requires
        0 <= n,
        n < u32::MAX,
        describes_prefix(cells, width, r, n),
        cells[n] == r.label,
        0 <= x < width,
        n == y * width + x,
    ensures
        describes_prefix(cells, width, grown(r, x, y), n + 1),
{
    lemma_index_split(width, x as int, y as int);
    lemma_count_bounds(cells, r.label, n);
    let g = grown(r, x, y);
    let a = choose|j: int| 0 <= j < n && #[trigger] cells[j] == r.label && j % width == r.min_x;
    let b = choose|j: int| 0 <= j < n && #[trigger] cells[j] == r.label && j % width == r.max_x;
    let c = choose|j: int| 0 <= j < n && #[trigger] cells[j] == r.label && j / width == r.min_y;
    let d = choose|j: int| 0 <= j < n && #[trigger] cells[j] == r.label && j / width == r.max_y;
    let a2 = if x < r.min_x {
        n
    } else {
        a
    };
    let b2 = if x > r.max_x {
        n
    } else {
        b
    };
    let c2 = if y < r.min_y {
        n
    } else {
        c
    };
    let d2 = if y > r.max_y {
        n
    } else {
        d
    };
    assert(0 <= a2 < n + 1 && cells[a2] == g.label && a2 % width == g.min_x);
    assert(0 <= b2 < n + 1 && cells[b2] == g.label && b2 % width == g.max_x);
    assert(0 <= c2 < n + 1 && cells[c2] == g.label && c2 / width == g.min_y);
    assert(0 <= d2 < n + 1 && cells[d2] == g.label && d2 / width == g.max_y);
}

/// An anchor starts a record of a single pixel.
proof fn lemma_prefix_fresh(cells: Seq<u32>, width: int, n: int, x: u32, y: u32)
    requires
        0 <= n,
        is_anchor(cells, n),
        0 <= x < width,
        n == y * width + x,
    ensures
        describes_prefix(cells, width, single_pixel_region(cells[n], x, y), n + 1),
{
    lemma_index_split(width, x as int, y as int);
    lemma_count_absent(cells, cells[n], n);
    assert(cells[n] == cells[n] && n % width == x && n / width == y);
}

/// A record of all the cells describes its label in the raster.
proof fn lemma_prefix_complete(labels: RasterView<u32>, r: Region)
    requires
        labels.wf(),
        describes_prefix(labels.cells, labels.width, r, labels.cells.len() as int),
    ensures
        describes(labels, r),
{
    let cells = labels.cells;
    let w = labels.width;
    let h = labels.height;
    let n = cells.len() as int;
    assert forall|x: int, y: int|
        labels.contains(x, y) && #[trigger] labels.at(x, y) == r.label implies r.min_x <= x
        <= r.max_x && r.min_y <= y <= r.max_y by {
        lemma_cell_index(w, h, x, y);
        lemma_index_split(w, x, y);
        assert(cells[y * w + x] == r.label);
    }
    let a = choose|j: int| 0 <= j < n && #[trigger] cells[j] == r.label && j % w == r.min_x;
    let b = choose|j: int| 0 <= j < n && #[trigger] cells[j] == r.label && j % w == r.max_x;
    let c = choose|j: int| 0 <= j < n && #[trigger] cells[j] == r.label && j / w == r.min_y;
    let d = choose|j: int| 0 <= j < n && #[trigger] cells[j] == r.label && j / w == r.max_y;
    lemma_index_coords(w, h, a);
    lemma_index_coords(w, h, b);
    lemma_index_coords(w, h, c);
    lemma_index_coords(w, h, d);
    assert(labels.at(a % w, a / w) == r.label);
    assert(labels.at(b % w, b / w) == r.label);
    assert(labels.at(c % w, c / w) == r.label);
    assert(labels.at(d % w, d / w) == r.label);
    assert(label_in_column(labels, r.label, r.min_x as int));
    assert(label_in_column(labels, r.label, r.max_x as int));
    assert(label_in_row(labels, r.label, r.min_y as int));
    assert(label_in_row(labels, r.label, r.max_y as int));
}

/// Anchors are listed in increasing order, and each of them is an anchor
/// below `n`.
pub proof fn lemma_anchors_sorted(cells: Seq<u32>, n: int)
    requires
        0 <= n,
    ensures
        forall|k: int|
            0 <= k < anchors(cells, n).len() ==> 0 <= #[trigger] anchors(cells, n)[k] < n
                && is_anchor(cells, anchors(cells, n)[k]),
        forall|k1: int, k2: int|
            0 <= k1 < k2 < anchors(cells, n).len() ==> #[trigger] anchors(cells, n)[k1]
                < #[trigger] anchors(cells, n)[k2],
    decreases n,
{
    if n > 0 {
        lemma_anchors_sorted(cells, n - 1);
        let prev = anchors(cells, n - 1);
        let now = anchors(cells, n);
        assert forall|k: int| 0 <= k < now.len() implies 0 <= #[trigger] now[k] < n && is_anchor(
            cells,
            now[k],
        ) by {
            if k < prev.len() {
                assert(now[k] == prev[k]);
            }
        }
        assert forall|k1: int, k2: int| 0 <= k1 < k2 < now.len() implies #[trigger] now[k1]
            < #[trigger] now[k2] by {
            assert(now[k1] == prev[k1]);
            if k2 < prev.len() {
                assert(now[k2] == prev[k2]);
            }
        }
    }
}

/// Every non-zero label among the first `n` cells is the label of one of
/// the anchors.
pub proof fn lemma_anchor_of(cells: Seq<u32>, n: int, j: int) -> (k: int)
    requires
        0 <= j < n,
        cells[j] != 0,
    ensures
        0 <= k < anchors(cells, n).len(),
        cells[anchors(cells, n)[k]] == cells[j],
    decreases n,
{
    if j < n - 1 {
        lemma_anchor_of(cells, n - 1, j)
    } else if is_anchor(cells, n - 1) {
        anchors(cells, n - 1).len() as int
    } else {
        let prior = choose|e: int| 0 <= e < n - 1 && #[trigger] cells[e] == cells[n - 1];
        lemma_anchor_of(cells, n - 1, prior)
    }
}

/// The records of a label raster carry pairwise different labels.
pub proof fn lemma_region_labels_distinct(
    labels: RasterView<u32>,
    regions: Seq<Region>,
    k1: int,
    k2: int,
)
    requires
        regions_of(labels, regions),
        0 <= k1 < regions.len(),
        0 <= k2 < regions.len(),
        k1 != k2,
    ensures
        regions[k1].label != regions[k2].label,
{
    lemma_anchors_sorted(labels.cells, labels.cells.len() as int);
}

/// Every labelled pixel belongs to one of the records.
pub proof fn lemma_region_of_pixel(
    labels: RasterView<u32>,
    regions: Seq<Region>,
    x: int,
    y: int,
) -> (k: int)
    requires
        labels.wf(),
        regions_of(labels, regions),
        labels.contains(x, y),
        labels.at(x, y) != 0,
    ensures
        0 <= k < regions.len(),
        regions[k].label == labels.at(x, y),
{
    lemma_cell_index(labels.width, labels.height, x, y);
    lemma_anchor_of(labels.cells, labels.cells.len() as int, y * labels.width + x)
}

/// Every record has a pixel that carries its label.
pub proof fn lemma_pixel_of_region(labels: RasterView<u32>, regions: Seq<Region>, k: int) -> (p: (
    int,
    int,
))
    requires
        regions_of(labels, regions),
        0 <= k < regions.len(),
    ensures
        labels.contains(p.0, p.1),
        labels.at(p.0, p.1) == regions[k].label,
        regions[k].label != 0,
{
    let r = regions[k];
    let y = choose|y: int| 0 <= y < labels.height && #[trigger] labels.at(r.min_x as int, y) == r.label;
    (r.min_x as int, y)
}

/// Collects, in one pass over the label raster, the bounding box and the
/// pixel count of every non-zero label.
pub fn collect_regions(labels: &Raster<u32>) -> (regions: Vec<Region>)
    requires
        labels.wf(),
        labels.width * labels.height <= u32::MAX,
    ensures
        regions_of(labels@, regions@),
{
    broadcast use group_hash_axioms;

    let w: u32 = labels.width;
    let n: usize = labels.cells.len();
    let ghost cells = labels.cells@;
    let mut regions: Vec<Region> = Vec::new();
    let mut index: HashMap<u32, usize> = HashMap::new();
    let mut i: usize = 0;
    let mut x: u32 = 0;
    let mut y: u32 = 0;
    proof {
        assert(n > 0 ==> w > 0) by (nonlinear_arith)
            requires
                n == w * labels.height,
        ;
    }
    while i < n
        invariant
            labels.wf(),
            w == labels.width,
            cells == labels.cells@,
            n == cells.len(),
            n <= u32::MAX,
            i <= n,
            i == y * w + x,
            i < n ==> x < w,
            regions.len() == anchors(cells, i as int).len(),
            forall|k: int|
                0 <= k < regions.len() ==> (#[trigger] regions[k]).label == cells[anchors(
                    cells,
                    i as int,
                )[k]] && describes_prefix(cells, w as int, regions[k], i as int),
            forall|l: u32| #[trigger]
                index@.contains_key(l) ==> index@[l] < regions.len() && regions[index@[l] as int].label
                    == l,
            forall|k: int|
                0 <= k < regions.len() ==> index@.contains_key((#[trigger] regions[k]).label)
                    && index@[regions[k].label] == k,
            forall|j: int| 0 <= j < i && #[trigger] cells[j] != 0 ==> index@.contains_key(cells[j]),
        decreases n - i,
    {
        let label: u32 = labels.cells[i];
        let ghost before = regions@;
        if label != 0 {
            let found: Option<usize> = match index.get(&label) {
                Some(k) => Some(*k),
                None => None,
            };
            match found {
                Some(k) => {
                    let r: Region = regions[k];
                    proof {
                        assert(!is_anchor(cells, i as int));
                        lemma_prefix_grown(cells, w as int, r, i as int, x, y);
                        lemma_count_bounds(cells, r.label, i as int);
                    }
                    let g = Region {
                        label: r.label,
                        min_x: if x < r.min_x {
                            x
                        } else {
                            r.min_x
                        },
                        min_y: if y < r.min_y {
                            y
                        } else {
                            r.min_y
                        },
                        max_x: if x > r.max_x {
                            x
                        } else {
                            r.max_x
                        },
                        max_y: if y > r.max_y {
                            y
                        } else {
                            r.max_y
                        },
                        pixel_count: r.pixel_count + 1,
                    };
                    regions.set(k, g);
                    proof {
                        assert forall|m: int| 0 <= m < regions.len() implies describes_prefix(
                            cells,
                            w as int,
                            #[trigger] regions[m],
                            i + 1,
                        ) by {
                            if m != k {
                                assert(regions[m] == before[m]);
                                assert(index@[before[m].label] == m);
                                lemma_prefix_unaffected(cells, w as int, regions[m], i as int);
                            }
                        }
                    }
                },
                None => {
                    proof {
                        assert(is_anchor(cells, i as int));
                        lemma_prefix_fresh(cells, w as int, i as int, x, y);
                    }
                    index.insert(label, regions.len());
                    regions.push(
                        Region { label, min_x: x, min_y: y, max_x: x, max_y: y, pixel_count: 1 },
                    );
                    proof {
                        assert forall|m: int| 0 <= m < regions.len() implies describes_prefix(
                            cells,
                            w as int,
                            #[trigger] regions[m],
                            i + 1,
                        ) by {
                            if m < before.len() {
                                assert(regions[m] == before[m]);
                                assert(index@.contains_key(before[m].label));
                                lemma_prefix_unaffected(cells, w as int, regions[m], i as int);
                            }
                        }
                    }
                },
            }
        } else {
            proof {
                assert(!is_anchor(cells, i as int));
                assert forall|m: int| 0 <= m < regions.len() implies describes_prefix(
                    cells,
                    w as int,
                    #[trigger] regions[m],
                    i + 1,
                ) by {
                    lemma_prefix_unaffected(cells, w as int, regions[m], i as int);
                }
            }
        }
        proof {
            assert((y + 1) * w == y * w + w) by (nonlinear_arith);
            assert(y < labels.height) by (nonlinear_arith)
                requires
                    y * w + x < w * labels.height,
                    0 <= x,
                    0 < w,
            ;
        }
        i += 1;
        x += 1;
        if x == w {
            x = 0;
            y += 1;
        }
    }
    proof {
        assert forall|k: int| 0 <= k < regions.len() implies describes(
            labels@,
            #[trigger] regions[k],
        ) by {
            lemma_prefix_complete(labels@, regions[k]);
        }
    }
    regions
}

} // verus!
