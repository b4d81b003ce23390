//! Foreground extraction: from the alpha channel to an occupancy raster.

use vstd::prelude::*;
use crate::colour::Rgba;
use crate::raster::{Raster, RasterView};

verus! {

/// The occupancy value of a pixel with the given alpha: 255 where alpha is
/// above the threshold, 0 elsewhere.
pub open spec fn occupancy_cell(alpha: u8, threshold: u8) -> u8 {
    if alpha > threshold {
        255
    } else {
        0
    }
}

/// The occupancy raster of a source raster.
pub open spec fn occupancy_of(src: RasterView<Rgba>, threshold: u8) -> RasterView<u8> {
    RasterView {
        width: src.width,
        height: src.height,
        cells: Seq::new(src.cells.len(), |i: int| occupancy_cell(src.cells[i].a, threshold)),
    }
}

/// Every cell of an occupancy raster is 0 (background) or 255 (foreground).
pub open spec fn is_occupancy(occ: RasterView<u8>) -> bool {
    &&& occ.wf()
    &&& forall|i: int| 0 <= i < occ.cells.len() ==> occ.cells[i] == 0 || occ.cells[i] == 255
}

/// Marks as foreground every pixel whose alpha exceeds `alpha_threshold`.
pub fn extract_foreground(src: &Raster<Rgba>, alpha_threshold: u8) -> (occ: Raster<u8>)
    requires
        src.wf(),
    ensures
        occ.wf(),
        occ@ == occupancy_of(src@, alpha_threshold),
        is_occupancy(occ@),
{
    let n: usize = src.cells.len();
    let mut cells: Vec<u8> = Vec::with_capacity(n);
    let mut i: usize = 0;
    while i < n
        invariant
            n == src.cells.len(),
            i <= n,
            cells.len() == i,
            forall|j: int| 0 <= j < i ==> cells[j] == occupancy_cell(src.cells[j].a, alpha_threshold),
        decreases n - i,
    {
        let value: u8 = if src.cells[i].a > alpha_threshold {
            255
        } else {
            0
        };
        cells.push(value);
        i += 1;
    }
    let occ = Raster { width: src.width, height: src.height, cells };
    assert(occ@.cells =~= occupancy_of(src@, alpha_threshold).cells);
    occ
}

} // verus!
