//! Styled text for terminal output.
//!
//! A [`RichString`] pairs a text buffer with the display style of every one of
//! its characters. The styles are stored as a list of spans that always tiles
//! the text without gaps, overlaps or empty spans, and in which neighbouring
//! spans never carry the same [`Style`]. All indices count characters, not
//! bytes.
//!
//! Every operation is specified over the view of a rich string: the sequence of
//! its characters, each paired with its style.

pub mod attributes;
pub mod model;
pub mod ops;
pub mod spans;
pub mod split;
pub mod string;
pub mod style;
pub mod text;

pub use attributes::{Color, Decoration, Feature};
pub use string::{RichString, RichStringError};
pub use style::{Style, StyleSpan};
