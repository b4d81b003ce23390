//! Analysis of UV-layout textures.
//!
//! A UV layout is a raster whose opaque regions are the islands of an
//! unwrapped mesh. The analysis labels the islands, measures how densely each
//! fills its bounding box, surrounds each with a safety margin and reports
//! where margins of different islands overlap or reach the edge of the
//! texture. The stages run in order: `foreground`, `labelling`, `regions`,
//! `dilation`, `overlap`, `compose` and `report`; `pipeline` chains them and
//! `laws` states what holds of every result.

pub mod colour;
pub mod compose;
pub mod dilation;
pub mod foreground;
pub mod geometry;
pub mod labelling;
pub mod laws;
pub mod overlap;
pub mod pipeline;
pub mod precheck;
pub mod raster;
pub mod regions;
pub mod report;
