//! Conversion of terminal color schemes between textual formats.
//!
//! The library parses a scheme from one of two source formats (a
//! `Name=Value` text format and a property-list tree format), normalizes
//! it into an eighteen-slot [`ColorScheme`](scheme::ColorScheme), and
//! serializes that model into a fixed textual layout.
pub mod color;
pub mod format;
pub mod num;
pub mod plist;
pub mod scheme;
pub mod text;

pub use color::Color;
pub use color::ColorError;
pub use color::NumError;
pub use format::ColorSchemeFormat;
pub use scheme::ColorScheme;
