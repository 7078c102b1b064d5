//! Hiding a byte payload in the low bits of an image's colour channels, and
//! reading it back.

pub mod bitstream;
pub mod frame;
pub mod grid;
pub mod image_matrix;
pub mod method;
pub mod pixel_manipulations;
pub mod raster;
pub mod round_trip;
