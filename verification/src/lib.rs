//! Core logic of a desktop screenshot tool: region capture bookkeeping,
//! scroll stitching of long screenshots, annotation rasterisation and the
//! PNG data-URL handling used to hand images to and from the front end.

pub mod raster;
pub mod stitch;
pub mod search;
pub mod annotate;
pub mod codec;
pub mod capture;
pub mod shell;
