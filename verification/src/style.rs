//! Styles and the operator that merges them.

use crate::attributes::{Color, Decoration, Feature};
use std::ops::BitAnd;
use vstd::prelude::*;
use vstd::std_specs::ops::BitAndSpecImpl;

verus! {

/// A style to be applied on text
#[derive(Debug, Copy, Clone, PartialEq, Eq, Structural)]
pub struct Style {
    /// Text color
    pub foreground: Color,
    /// Background color
    pub background: Color,
    /// Bold
    pub bold: Feature,
    /// Italic
    pub italic: Feature,
    /// Underline
    pub decoration: Decoration,
}

/// A style applied to the characters from index `start` up to, but not
/// including, index `end`.
#[derive(Debug, Copy, Clone, PartialEq, Eq, Structural)]
pub struct StyleSpan {
    /// Index of the first character of the span
    pub start: usize,
    /// Index one past the last character of the span
    pub end: usize,
    /// Style of every character of the span
    pub style: Style,
}

impl Style {
    /// The style that inherits all its properties.
    pub open spec fn spec_plain() -> Style {
        Style {
            foreground: Color::INHERIT,
            background: Color::INHERIT,
            bold: Feature::INHERIT,
            italic: Feature::INHERIT,
            decoration: Decoration::INHERIT,
        }
    }

    /// Field by field, the value of `self` unless `self` inherits that field,
    /// in which case the value of `fallback`.
    pub open spec fn merged(self, fallback: Style) -> Style {
        Style {
            foreground: if self.foreground == Color::INHERIT {
                fallback.foreground
            } else {
                self.foreground
            },
            background: if self.background == Color::INHERIT {
                fallback.background
            } else {
                self.background
            },
            bold: if self.bold == Feature::INHERIT {
                fallback.bold
            } else {
                self.bold
            },
            italic: if self.italic == Feature::INHERIT {
                fallback.italic
            } else {
                self.italic
            },
            decoration: if self.decoration == Decoration::INHERIT {
                fallback.decoration
            } else {
                self.decoration
            },
        }
    }

    /// Whether no field of the style is inherited.
    pub open spec fn fully_specified(self) -> bool {
        &&& self.foreground != Color::INHERIT
        &&& self.background != Color::INHERIT
        &&& self.bold != Feature::INHERIT
        &&& self.italic != Feature::INHERIT
        &&& self.decoration != Decoration::INHERIT
    }

    /// Returns a style that inherits all its properties
    #[verifier::when_used_as_spec(spec_plain)]
    pub fn plain() -> (style: Self)
        ensures
            style == Style::spec_plain(),
    {
        Self {
            foreground: Color::INHERIT,
            background: Color::INHERIT,
            bold: Feature::INHERIT,
            italic: Feature::INHERIT,
            decoration: Decoration::INHERIT,
        }
    }

    /// Merges two styles: every property that `self` sets is kept, every
    /// property that `self` inherits is taken from `fallback`.
    pub fn merge(self, fallback: Style) -> (style: Style)
        ensures
            style == self.merged(fallback),
    {
        Style {
            foreground: if self.foreground == Color::INHERIT {
                fallback.foreground
            } else {
                self.foreground
            },
            background: if self.background == Color::INHERIT {
                fallback.background
            } else {
                self.background
            },
            bold: if self.bold == Feature::INHERIT {
                fallback.bold
            } else {
                self.bold
            },
            italic: if self.italic == Feature::INHERIT {
                fallback.italic
            } else {
                self.italic
            },
            decoration: if self.decoration == Decoration::INHERIT {
                fallback.decoration
            } else {
                self.decoration
            },
        }
    }

    /// The plain style is a left identity of merging.
    pub proof fn lemma_merge_plain_left(x: Style)
        ensures
            Style::plain().merged(x) == x,
    {
    }

    /// The plain style is a right identity of merging.
    pub proof fn lemma_merge_plain_right(x: Style)
        ensures
            x.merged(Style::plain()) == x,
    {
    }

    /// A style that sets every property is unchanged by any fallback.
    pub proof fn lemma_merge_fully_specified(x: Style, y: Style)
        requires
            x.fully_specified(),
        ensures
            x.merged(y) == x,
    {
    }

    /// Merging is associative.
    pub proof fn lemma_merge_associative(x: Style, y: Style, z: Style)
        ensures
            x.merged(y).merged(z) == x.merged(y.merged(z)),
    {
    }
}

impl BitAndSpecImpl for Style {
    open spec fn obeys_bitand_spec() -> bool {
        true
    }

    open spec fn bitand_req(self, rhs: Style) -> bool {
        true
    }

    open spec fn bitand_spec(self, rhs: Style) -> Style {
        self.merged(rhs)
    }
}

/// `left & right` merges two styles, `left` taking precedence.
impl BitAnd for Style {
    type Output = Style;

    fn bitand(self, rhs: Style) -> (style: Style) {
        self.merge(rhs)
    }
}

} // verus!
