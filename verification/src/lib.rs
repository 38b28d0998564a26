//! Verified core of a TIFF re-encoder: the decisions and the pixel transforms
//! that the command-line tool applies to every image file directory, and the
//! text of its test report.

pub mod tiff;
pub mod rounding;
pub mod sample;
pub mod sorting;
pub mod pixels;
pub mod histogram;
pub mod wipe;
pub mod wipe_page;
pub mod quantize;
pub mod plan;
pub mod ifd;
pub mod tiles;
pub mod tags;
pub mod batch;
pub mod report;
pub mod test_images;
