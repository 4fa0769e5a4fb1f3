//! Terminal plotting primitives: a subpixel surface with charset codecs and
//! color encoders, display-width measurement, exact decimal labels, and the
//! raster cards that carry a plot to HTML and SVG hosts.

pub mod calendar;
pub mod charset;
pub mod color;
pub mod error;
pub mod format;
pub mod group;
pub mod html;
pub mod limits;
pub mod palette;
pub mod raster;
pub mod scale;
pub mod stack;
pub mod surface;
pub mod svg;
pub mod text;
pub mod ticks;
pub mod unit;
pub mod width;
