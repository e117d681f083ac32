//! Text pixel-art to indexed PNG.
//!
//! A small text format describes an image: a palette of named colours
//! (one `CHAR : COLOUR` definition per line) followed by a character
//! grid, one glyph per pixel. This crate parses that format and
//! serialises the result as an indexed-colour PNG stream.

pub mod colour;
pub mod encode;
pub mod error;
pub mod image;
pub mod palette;
pub mod text;

pub use colour::Colour;
pub use colour::ColourParseError;
pub use error::Error;
pub use image::Tep;
pub use palette::ColourDefinition;
pub use palette::Palette;
