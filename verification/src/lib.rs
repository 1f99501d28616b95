//! Renders a textual algebraic expression as a curve on a fixed raster grid
//! and emits the raster as a standards-conformant image file: a naive
//! first-operator expression parser, a rasterizer over a padded row-major
//! grid, a stored-mode compression envelope with an Adler-32 trailer, and a
//! chunked image container whose chunks carry CRC-32 checksums.
//!
//! Evaluating the parsed expression at sample points uses real-valued
//! arithmetic and lives with the caller; everything else - parsing,
//! checksums, framing, raster geometry, and assembly - is here.

pub mod checksum;
pub mod expr;
pub mod frame;
pub mod image;
