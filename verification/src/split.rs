//! What splitting at a separator means, and that joining undoes it.

use crate::model::text_of;
use crate::style::Style;
use vstd::prelude::*;

verus! {

/// Whether `sep` stands in `text` at index `i`.
pub open spec fn occurs_at(text: Seq<char>, sep: Seq<char>, i: int) -> bool {
    &&& 0 <= i
    &&& i + sep.len() <= text.len()
    &&& text.subrange(i, i + sep.len()) == sep
}

/// Whether `i` is the lowest index at which `sep` stands in `text`.
pub open spec fn is_first_occurrence(text: Seq<char>, sep: Seq<char>, i: int) -> bool {
    &&& occurs_at(text, sep, i)
    &&& forall|j: int| 0 <= j < i ==> !occurs_at(text, sep, j)
}

/// The lowest index at which `sep` stands in `text`, if it stands anywhere.
pub open spec fn first_occurrence(text: Seq<char>, sep: Seq<char>) -> Option<int> {
    if exists|i: int| is_first_occurrence(text, sep, i) {
        Some(choose|i: int| is_first_occurrence(text, sep, i))
    } else {
        None
    }
}

/// The pieces that remain of a styled sequence when every occurrence of
/// `sep` in its text is cut out, found from left to right: what stands
/// before the first occurrence, then the pieces of what stands behind it.
/// A sequence without an occurrence is its own single piece.
pub open spec fn split_pieces(styled: Seq<(char, Style)>, sep: Seq<char>) -> Seq<
    Seq<(char, Style)>,
>
    decreases styled.len(),
{
    match first_occurrence(text_of(styled), sep) {
        Some(i) if sep.len() > 0 => seq![styled.subrange(0, i)] + split_pieces(
            styled.subrange(i + sep.len(), styled.len() as int),
            sep,
        ),
        _ => seq![styled],
    }
}

/// The text of each piece.
pub open spec fn texts_of(pieces: Seq<Seq<(char, Style)>>) -> Seq<Seq<char>> {
    Seq::new(pieces.len(), |k: int| text_of(pieces[k]))
}

/// The pieces in order, with `sep` between each two neighbours.
pub open spec fn joined(pieces: Seq<Seq<char>>, sep: Seq<char>) -> Seq<char>
    decreases pieces.len(),
{
    if pieces.len() == 0 {
        Seq::empty()
    } else if pieces.len() == 1 {
        pieces[0]
    } else {
        pieces[0] + sep + joined(pieces.drop_first(), sep)
    }
}

/// Where `sep` stands in a text at all, it stands somewhere first.
pub proof fn lemma_first_occurrence_exists(text: Seq<char>, sep: Seq<char>, i: int)
    requires
        occurs_at(text, sep, i),
    ensures
        first_occurrence(text, sep) is Some,
        is_first_occurrence(text, sep, first_occurrence(text, sep).unwrap()),
        first_occurrence(text, sep).unwrap() <= i,
    decreases i,
{
    if exists|j: int| 0 <= j < i && occurs_at(text, sep, j) {
        let j = choose|j: int| 0 <= j < i && occurs_at(text, sep, j);
        lemma_first_occurrence_exists(text, sep, j);
    } else {
        assert(is_first_occurrence(text, sep, i));
        lemma_first_occurrence_unique(text, sep, i);
    }
}

/// The first occurrence is the only index that is one.
pub proof fn lemma_first_occurrence_unique(text: Seq<char>, sep: Seq<char>, i: int)
    requires
        is_first_occurrence(text, sep, i),
    ensures
        first_occurrence(text, sep) == Some(i),
{
    let c = choose|c: int| is_first_occurrence(text, sep, c);
    assert(is_first_occurrence(text, sep, c));
    if c < i {
        assert(!occurs_at(text, sep, c));
    }
    if i < c {
        assert(!occurs_at(text, sep, i));
    }
}

/// Splitting always leaves at least one piece.
pub proof fn lemma_split_nonempty(styled: Seq<(char, Style)>, sep: Seq<char>)
    ensures
        split_pieces(styled, sep).len() >= 1,
{
}

/// A sequence in whose text the separator stands nowhere is its own single
/// piece, and only such a sequence is left in one piece by a separator that
/// has characters.
pub proof fn lemma_split_without_occurrence(styled: Seq<(char, Style)>, sep: Seq<char>)
    requires
        sep.len() > 0,
    ensures
        (forall|i: int| !occurs_at(text_of(styled), sep, i)) <==> split_pieces(styled, sep)
            == seq![styled],
{
    let text = text_of(styled);
    if exists|i: int| occurs_at(text, sep, i) {
        let i = choose|i: int| occurs_at(text, sep, i);
        lemma_first_occurrence_exists(text, sep, i);
        let first = first_occurrence(text, sep).unwrap();
        lemma_split_nonempty(styled.subrange(first + sep.len(), styled.len() as int), sep);
        assert(split_pieces(styled, sep).len() >= 2);
        assert(seq![styled].len() == 1);
    }
}

/// Where the separator stands at the very start, the first piece is empty.
pub proof fn lemma_split_leading_occurrence(styled: Seq<(char, Style)>, sep: Seq<char>)
    requires
        sep.len() > 0,
        occurs_at(text_of(styled), sep, 0),
    ensures
        split_pieces(styled, sep).len() >= 2,
        split_pieces(styled, sep)[0] == Seq::<(char, Style)>::empty(),
{
    lemma_first_occurrence_unique(text_of(styled), sep, 0);
    lemma_split_nonempty(styled.subrange(sep.len() as int, styled.len() as int), sep);
    assert(styled.subrange(0, 0) =~= Seq::<(char, Style)>::empty());
}

/// Where the separator stands first at the very end, an empty piece follows
/// what stands before it.
pub proof fn lemma_split_trailing_occurrence(styled: Seq<(char, Style)>, sep: Seq<char>)
    requires
        sep.len() > 0,
        is_first_occurrence(text_of(styled), sep, styled.len() - sep.len()),
    ensures
        split_pieces(styled, sep) == seq![
            styled.subrange(0, styled.len() - sep.len()),
            Seq::<(char, Style)>::empty(),
        ],
{
    let empty = Seq::<(char, Style)>::empty();
    lemma_first_occurrence_unique(text_of(styled), sep, styled.len() - sep.len());
    assert(styled.subrange(styled.len() as int, styled.len() as int) =~= empty);
    assert forall|i: int| !occurs_at(text_of(empty), sep, i) by {}
    assert(split_pieces(empty, sep) == seq![empty]);
    assert(seq![styled.subrange(0, styled.len() - sep.len())] + seq![empty] =~= seq![
        styled.subrange(0, styled.len() - sep.len()),
        empty,
    ]);
}

/// Splitting at a separator and joining the texts of the pieces with that
/// separator gives back the text that was split.
pub proof fn lemma_split_join(styled: Seq<(char, Style)>, sep: Seq<char>)
    ensures
        joined(texts_of(split_pieces(styled, sep)), sep) == text_of(styled),
    decreases styled.len(),
{
    let text = text_of(styled);
    match first_occurrence(text, sep) {
        Some(i) if sep.len() > 0 => {
            let head = styled.subrange(0, i);
            let tail = styled.subrange(i + sep.len(), styled.len() as int);
            let rest = split_pieces(tail, sep);
            let all = texts_of(seq![head] + rest);
            lemma_split_nonempty(tail, sep);
            lemma_split_join(tail, sep);
            assert(all.drop_first() =~= texts_of(rest));
            assert(all[0] == text_of(head));
            assert(text_of(head) =~= text.subrange(0, i));
            assert(text_of(tail) =~= text.subrange(i + sep.len(), text.len() as int));
            assert(text.subrange(0, i) + sep + text.subrange(i + sep.len(), text.len() as int)
                =~= text);
        },
        _ => {
            assert(texts_of(seq![styled])[0] == text);
        },
    }
}

} // verus!
