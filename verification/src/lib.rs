//! Geometry and filtering for outlining fiducial markers on a raster.
//!
//! The crate turns marker detections (corner list, identifier, centre) into
//! a display list of thick-stroke quadrilaterals and identifier labels, and
//! paints the quadrilaterals into an RGB buffer. Every function carries a
//! contract, and Verus proves each of them but one: the fill of a single
//! quadrilateral is done by `imageproc`, and what `raster` says of it is
//! taken on trust.

pub mod filter;
pub mod img_utils;
pub mod label;
pub mod overlay;
pub mod raster;
pub mod rounding;
