//! The mathematical model of a rich string: a sequence of characters, each
//! paired with its style.

use crate::style::Style;
use vstd::prelude::*;

verus! {

/// Each character of `text` paired with the style at the same index.
pub open spec fn paired(text: Seq<char>, styles: Seq<Style>) -> Seq<(char, Style)> {
    Seq::new(text.len(), |i: int| (text[i], styles[i]))
}

/// Each character of `text` paired with `style`.
pub open spec fn uniform(text: Seq<char>, style: Style) -> Seq<(char, Style)> {
    Seq::new(text.len(), |i: int| (text[i], style))
}

/// The characters of a styled sequence.
pub open spec fn text_of(styled: Seq<(char, Style)>) -> Seq<char> {
    Seq::new(styled.len(), |i: int| styled[i].0)
}

/// The styles of a styled sequence.
pub open spec fn styles_of(styled: Seq<(char, Style)>) -> Seq<Style> {
    Seq::new(styled.len(), |i: int| styled[i].1)
}

/// What complementing with `style` makes of a styled sequence: each
/// character keeps the properties its style sets and takes the others from
/// `style`.
pub open spec fn complemented(styled: Seq<(char, Style)>, style: Style) -> Seq<(char, Style)> {
    Seq::new(styled.len(), |i: int| (styled[i].0, styled[i].1.merged(style)))
}

/// What overwriting with `style` makes of a styled sequence: each character
/// takes the properties `style` sets and keeps its own for the others.
pub open spec fn overwritten(styled: Seq<(char, Style)>, style: Style) -> Seq<(char, Style)> {
    Seq::new(styled.len(), |i: int| (styled[i].0, style.merged(styled[i].1)))
}

} // verus!
