//! Character-indexed slicing of plain text.

use substring::Substring;
use vstd::prelude::*;

verus! {

/// The characters of `text` from index `start` up to, but not including,
/// index `end`, where an index past the end of `text` counts as the end of
/// `text`; nothing where `end` is not behind `start`.
pub open spec fn char_range(text: Seq<char>, start: nat, end: nat) -> Seq<char> {
    if end <= start {
        Seq::empty()
    } else {
        text.subrange(
            if start < text.len() {
                start as int
            } else {
                text.len() as int
            },
            if end < text.len() {
                end as int
            } else {
                text.len() as int
            },
        )
    }
}

/// Slices `text` by character indices with `substring::Substring::substring`.
///
/// Trusted: the contract restates what that method does. It returns the empty
/// string when `end <= start`; otherwise it walks the characters of `text`
/// and returns those from the `start`-th up to the `end`-th, taking the end
/// of the text for either position that lies past it. It never fails.
#[verifier::external_body]
pub(crate) fn char_slice<'a>(text: &'a str, start: usize, end: usize) -> (slice: &'a str)
    ensures
        slice@ == char_range(text@, start as nat, end as nat),
{
    text.substring(start, end)
}

} // verus!
