//! A small 2D rendering toolkit: a raw RGBA pixel buffer, a polygon
//! scan-fill rasterizer with outline stroking, and a glyph compositor
//! that builds a text image from per-glyph coverage masks.

pub mod glyph;
pub mod image;
pub mod raster;

pub use glyph::CoveragePixel;
pub use glyph::GlyphBox;
pub use glyph::GlyphMask;
pub use image::RenderError;
pub use image::SimpleImage;
pub use raster::Vertex;
