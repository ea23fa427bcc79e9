//! Planar tile graphics: a bitplane codec for 8x8 tiles in 1 to 4 bits per pixel,
//! and the layout of decoded tiles into an RGBA image.

pub mod bpp;
pub mod config;
pub mod raster;
pub mod tile;

pub use bpp::Bpp;
pub use config::Config;
