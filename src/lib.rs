//! Procedural landscape synthesis: layered random-walk mountain ranges
//! composited over a fogged sky, all on an in-memory RGB raster.
pub mod color;
pub mod random;
pub mod raster;
pub mod scene;
pub mod terrain;
