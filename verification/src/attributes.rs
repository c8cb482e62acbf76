//! The attribute values a [`crate::Style`] is made of.
//!
//! Each attribute type has an `INHERIT` value that stands for "not set here":
//! when two styles are merged, an inherited attribute takes the value of the
//! other style.

use vstd::prelude::*;

verus! {

/// Colors
#[allow(non_camel_case_types)]
#[derive(Debug, Copy, Clone, PartialEq, Eq, Structural)]
pub enum Color {
    /// Don't change the color
    INHERIT,
    /// Black, default background color of the terminal
    BLACK,
    /// Red
    RED,
    /// Yellow
    YELLOW,
    /// Green
    GREEN,
    /// Cyan
    CYAN,
    /// Blue
    BLUE,
    /// Purple
    PURPLE,
    /// Light grey, default text color of the terminal
    LIGHTGREY,
    /// Dark grey
    DARKGREY,
    /// Light red
    LIGHTRED,
    /// Light yellow
    LIGHTYELLOW,
    /// Light green
    LIGHTGREEN,
    /// Light cyan
    LIGHTCYAN,
    /// Light blue
    LIGHTBLUE,
    /// Light purple
    LIGHTPURPLE,
    /// White, *not the default text color of the terminal, use `LIGHTGREY` for that purpose*
    WHITE,
}

/// Underline or line-through
#[allow(non_camel_case_types)]
#[derive(Debug, Copy, Clone, PartialEq, Eq, Structural)]
pub enum Decoration {
    /// Don't change the decoration
    INHERIT,
    /// No decoration
    NONE,
    /// Underline
    UNDERLINE,
    /// Line-through
    LINETHROUGH,
}

/// Boolean value with 3 states
#[allow(non_camel_case_types)]
#[derive(Debug, Copy, Clone, PartialEq, Eq, Structural)]
pub enum Feature {
    /// Don't change the value
    INHERIT,
    /// Enabled
    ENABLED,
    /// Disabled
    DISABLED,
}

} // verus!
