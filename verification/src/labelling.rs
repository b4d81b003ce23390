//! Region labelling: one label per maximal 8-connected foreground component.

use vstd::prelude::*;
use crate::foreground::is_occupancy;
use crate::geometry::chebyshev;
use crate::raster::{Raster, RasterView};

verus! {

/// `path` is a chain of foreground pixels of `occ` in which each pixel is
/// 8-adjacent to the next.
pub open spec fn is_chain(occ: RasterView<u8>, path: Seq<(int, int)>) -> bool {
    &&& path.len() > 0
    &&& forall|k: int|
        0 <= k < path.len() ==> occ.contains(#[trigger] path[k].0, path[k].1) && occ.at(
            path[k].0,
            path[k].1,
        ) != 0
    &&& forall|k: int|
        0 <= k < path.len() - 1 ==> chebyshev(
            #[trigger] path[k].0,
            path[k].1,
            path[k + 1].0,
            path[k + 1].1,
        ) <= 1
}

/// Two pixels are joined by a chain of 8-adjacent foreground pixels.
pub open spec fn connected(occ: RasterView<u8>, x1: int, y1: int, x2: int, y2: int) -> bool {
    exists|path: Seq<(int, int)>|
        #![trigger is_chain(occ, path)]
        is_chain(occ, path) && path.first() == (x1, y1) && path.last() == (x2, y2)
}

/// `labels` labels the components of `occ`: background pixels carry 0,
/// foreground pixels carry a non-zero label, and two foreground pixels carry
/// the same label exactly when they are connected.
pub open spec fn is_labelling(occ: RasterView<u8>, labels: RasterView<u32>) -> bool {
    &&& labels.wf()
    &&& labels.same_shape(occ)
    &&& forall|x: int, y: int|
        occ.contains(x, y) ==> (#[trigger] labels.at(x, y) == 0 <==> occ.at(x, y) == 0)
    &&& forall|x1: int, y1: int, x2: int, y2: int|
        #![trigger labels.at(x1, y1), labels.at(x2, y2)]
        #![trigger connected(occ, x1, y1, x2, y2)]
        occ.contains(x1, y1) && occ.contains(x2, y2) && occ.at(x1, y1) != 0 && occ.at(x2, y2) != 0
            ==> (labels.at(x1, y1) == labels.at(x2, y2) <==> connected(occ, x1, y1, x2, y2))
}

/// The raster is a single foreground pixel.
pub open spec fn is_lone_pixel(occ: RasterView<u8>) -> bool {
    occ.width == 1 && occ.height == 1 && occ.cells[0] != 0
}

/// Labels the components of an occupancy raster by calling
/// `imageproc::region_labelling::connected_components` with
/// `Connectivity::Eight` and background `Luma([0])`.
///
/// Trusted: the result has the shape of the input, is 0 exactly on the
/// background, and gives two foreground pixels the same label exactly when a
/// chain of 8-adjacent foreground pixels joins them. The outside function
/// joins only pixels of equal value, which on an occupancy raster are all
/// foreground pixels. It panics on 2^32 pixels or more and on a raster that
/// is a single foreground pixel, so both are excluded.
#[verifier::external_body]
fn connected_components_eight(occ: &Raster<u8>) -> (labels: Raster<u32>)
    requires
        is_occupancy(occ@),
        occ.width * occ.height < 0x1_0000_0000,
        !is_lone_pixel(occ@),
    ensures
        is_labelling(occ@, labels@),
{
    let image = image::GrayImage::from_raw(occ.width, occ.height, occ.cells.clone()).unwrap();
    let labelled = imageproc::region_labelling::connected_components(
        &image,
        imageproc::region_labelling::Connectivity::Eight,
        image::Luma([0u8]),
    );
    Raster { width: occ.width, height: occ.height, cells: labelled.into_raw() }
}

/// Assigns a label to every maximal 8-connected foreground component of an
/// occupancy raster. Which number a component receives is not specified.
pub fn label_regions(occ: &Raster<u8>) -> (labels: Raster<u32>)
    requires
        is_occupancy(occ@),
        occ.width * occ.height < 0x1_0000_0000,
    ensures
        labels.wf(),
        is_labelling(occ@, labels@),
{
    if occ.width == 1 && occ.height == 1 && occ.cells[0] != 0 {
        let mut cells: Vec<u32> = Vec::new();
        cells.push(1);
        let labels = Raster { width: 1, height: 1, cells };
        proof {
            let path: Seq<(int, int)> = seq![(0int, 0int)];
            assert(path[0] == (0int, 0int));
            assert(is_chain(occ@, path));
            assert(path.first() == (0int, 0int) && path.last() == (0int, 0int));
            assert(connected(occ@, 0, 0, 0, 0));
        }
        labels
    } else {
        connected_components_eight(occ)
    }
}

} // verus!
