//! Colors written as text, palettes of named colors that inherit from one another,
//! and templates whose markers are replaced by colors in a chosen format.
pub mod color;
pub mod config;
pub mod error;
pub mod parse;
pub mod table;
pub mod text;

pub use error::Error;
