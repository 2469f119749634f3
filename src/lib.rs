//! Renders ASCII text into an uncompressed 24-bit bitmap image with a bitmap font.
//!
//! The work runs in three stages: [`layout`] breaks text into lines that fit a
//! width, [`raster`] draws the lines onto a canvas, and [`bitmap`] encodes the
//! canvas as a bitmap file. Widths, heights and margins are whole pixels.
pub mod bitmap;
pub mod faces;
pub mod font;
pub mod layout;
pub mod raster;

pub use bitmap::{encode, little_endian, split_color, BitmapPixel, PixelBuffer};
pub use faces::FontFace;
pub use font::{Font, FontError, GLYPH_COUNT};
pub use layout::{break_apart, break_apart_bytes, calculate_text_length, measure_bytes, Spliterated};
pub use raster::{page_lines, rasterize, write_text, ImageOptions, Padding};
