//! Terminal text styling: colors read from `r,g,b` or `#RRGGBB` text, and
//! text wrapped in ANSI escape sequences for color and emphasis.
pub mod color;
pub mod style;

pub use color::Color;
pub use style::Colorize;
