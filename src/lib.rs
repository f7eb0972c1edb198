//! Hides a named byte payload in the least-significant bits of an RGBA
//! raster, and recovers it bit for bit.
pub mod pixels;
pub mod raster;
pub mod util;
