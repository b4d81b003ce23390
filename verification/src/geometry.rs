//! Distances between pixels and between bounding boxes.

use vstd::prelude::*;

verus! {

/// The distance between two coordinates on one axis.
pub open spec fn axis_distance(a: int, b: int) -> int {
    if a <= b {
        b - a
    } else {
        a - b
    }
}

/// Chebyshev (chessboard) distance between two pixels: the larger of the
/// two axis distances.
pub open spec fn chebyshev(x1: int, y1: int, x2: int, y2: int) -> int {
    if axis_distance(x1, x2) >= axis_distance(y1, y2) {
        axis_distance(x1, x2)
    } else {
        axis_distance(y1, y2)
    }
}

/// The gap between the closed intervals `[lo1, hi1]` and `[lo2, hi2]`:
/// zero when neither lies wholly before the other.
pub open spec fn interval_gap(lo1: int, hi1: int, lo2: int, hi2: int) -> int {
    if hi1 < lo2 {
        lo2 - hi1
    } else if hi2 < lo1 {
        lo1 - hi2
    } else {
        0
    }
}

/// The smaller of two integers.
pub open spec fn smaller(a: int, b: int) -> int {
    if a <= b {
        a
    } else {
        b
    }
}

/// The distance that `min_distance_bounds` reports for two boxes given as
/// `((min_x, min_y), (max_x, max_y))`: the smaller of the horizontal and
/// the vertical gap.
pub open spec fn box_gap(b1: ((u32, u32), (u32, u32)), b2: ((u32, u32), (u32, u32))) -> int {
    smaller(
        interval_gap(b1.0.0 as int, b1.1.0 as int, b2.0.0 as int, b2.1.0 as int),
        interval_gap(b1.0.1 as int, b1.1.1 as int, b2.0.1 as int, b2.1.1 as int),
    )
}

/// `(x, y)` lies inside the box `((min_x, min_y), (max_x, max_y))`.
pub open spec fn box_contains(b: ((u32, u32), (u32, u32)), x: int, y: int) -> bool {
    b.0.0 <= x <= b.1.0 && b.0.1 <= y <= b.1.1
}

fn gap_1d(lo1: u32, hi1: u32, lo2: u32, hi2: u32) -> (gap: u32)
    ensures
        gap == interval_gap(lo1 as int, hi1 as int, lo2 as int, hi2 as int),
{
    if hi1 < lo2 {
        lo2.saturating_sub(hi1)
    } else if hi2 < lo1 {
        lo1.saturating_sub(hi2)
    } else {
        0
    }
}

/// Separation of two bounding boxes, each given as
/// `((min_x, min_y), (max_x, max_y))` with inclusive corners: the smaller
/// of the gap along x and the gap along y, where a gap is zero if the two
/// extents overlap on that axis.
pub fn min_distance_bounds(b1: ((u32, u32), (u32, u32)), b2: ((u32, u32), (u32, u32))) -> (d: u32)
    ensures
        d == box_gap(b1, b2),
{
    let ((x1min, y1min), (x1max, y1max)) = b1;
    let ((x2min, y2min), (x2max, y2max)) = b2;
    let dx: u32 = gap_1d(x1min, x1max, x2min, x2max);
    let dy: u32 = gap_1d(y1min, y1max, y2min, y2max);
    if dx <= dy {
        dx
    } else {
        dy
    }
}

/// The box separation never exceeds the Chebyshev distance between a pixel
/// of the first box and a pixel of the second.
pub proof fn lemma_box_gap_bounds_distance(
    b1: ((u32, u32), (u32, u32)),
    b2: ((u32, u32), (u32, u32)),
    x1: int,
    y1: int,
    x2: int,
    y2: int,
)
    requires
        box_contains(b1, x1, y1),
        box_contains(b2, x2, y2),
    ensures
        box_gap(b1, b2) <= chebyshev(x1, y1, x2, y2),
{
}

/// Two pixels are within `2 * radius` of each other exactly when some
/// point is within `radius` of both; such a point can be taken inside the
/// box spanned by the two pixels.
pub proof fn lemma_midpoint(x1: int, y1: int, x2: int, y2: int, radius: int) -> (m: (int, int))
    requires
        0 <= radius,
        chebyshev(x1, y1, x2, y2) <= 2 * radius,
    ensures
        chebyshev(m.0, m.1, x1, y1) <= radius,
        chebyshev(m.0, m.1, x2, y2) <= radius,
        smaller(x1, x2) <= m.0 <= x1 + x2 - smaller(x1, x2),
        smaller(y1, y2) <= m.1 <= y1 + y2 - smaller(y1, y2),
{
    let mx = if x2 - x1 > radius {
        x1 + radius
    } else if x1 - x2 > radius {
        x1 - radius
    } else {
        x2
    };
    let my = if y2 - y1 > radius {
        y1 + radius
    } else if y1 - y2 > radius {
        y1 - radius
    } else {
        y2
    };
    (mx, my)
}

/// Chebyshev distance obeys the triangle inequality.
pub proof fn lemma_chebyshev_triangle(x1: int, y1: int, x2: int, y2: int, x3: int, y3: int)
    ensures
        chebyshev(x1, y1, x3, y3) <= chebyshev(x1, y1, x2, y2) + chebyshev(x2, y2, x3, y3),
{
}

} // verus!
