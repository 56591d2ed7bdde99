//! Region segmentation and colour analysis of RGB images.
pub mod binary32;
pub mod color;
pub mod imaging;
pub mod raster;
pub mod segment;
pub mod types;
