//! Decoding of `IBRraw.xdr` raw images, their value range and display window,
//! and their rendering as 8-bit PNG data.
pub mod arithmetic;
pub mod binary32;
pub mod header;
pub mod pixels;
pub mod rounding;
pub mod tue_raw_img;
