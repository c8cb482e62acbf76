//! Rich strings: text with a style for each character.

use crate::model::{complemented, overwritten, paired, styles_of, text_of, uniform};
use crate::spans::{
    canonical, char_styles, covers, extent, lemma_char_styles_index, lemma_char_styles_len,
    lemma_char_styles_step, lemma_prefix_tiles, lemma_take_all, lemma_tiles_partition,
    lemma_well_formed_unique, push_run, run, tiles, well_formed, width,
};
use crate::split::{joined, lemma_first_occurrence_unique, occurs_at, split_pieces, texts_of};
use crate::style::{Style, StyleSpan};
use crate::text::char_slice;
use vstd::math::min;
use vstd::prelude::*;
use vstd::std_specs::cmp::PartialEqSpecImpl;
use vstd::string::*;

verus! {

/// Why an operation on a rich string was refused.
#[derive(Debug, Copy, Clone, PartialEq, Eq, Structural)]
pub enum RichStringError {
    /// An index or a range reaches past the end of the string, or a range
    /// ends before it starts.
    OutOfRange,
    /// The separator to split at has no characters.
    EmptySeparator,
}

/// String with style information
#[derive(Debug)]
pub struct RichString {
    text: String,
    spans: Vec<StyleSpan>,
}

impl View for RichString {
    type V = Seq<(char, Style)>;

    /// The characters of the string in order, each with its style.
    open spec fn view(&self) -> Seq<(char, Style)> {
        paired(self.text(), char_styles(self.spans()))
    }
}

impl RichString {
    /// The characters of the string.
    pub closed spec fn text(&self) -> Seq<char> {
        self.text@
    }

    /// The style spans of the string, in order.
    pub closed spec fn spans(&self) -> Seq<StyleSpan> {
        self.spans@
    }

    /// The invariant of every rich string: its spans cover its characters
    /// from the first to the last, in order, without gaps, overlaps or empty
    /// spans, and neighbouring spans differ in style.
    pub open spec fn wf(&self) -> bool {
        well_formed(self.spans(), self.text().len())
    }

    /// Whether two strings have the same text and the same spans.
    pub open spec fn same_as(&self, other: &Self) -> bool {
        self.text() == other.text() && self.spans() == other.spans()
    }

    /// The view of a well-formed string has one entry per character, and its
    /// characters are the text.
    pub proof fn lemma_view(&self)
        requires
            self.wf(),
        ensures
            self@.len() == self.text().len(),
            text_of(self@) == self.text(),
            styles_of(self@) == char_styles(self.spans()),
    {
        lemma_char_styles_len(self.spans());
        assert(text_of(self@) =~= self.text());
        assert(styles_of(self@) =~= char_styles(self.spans()));
    }

    /// Two well-formed strings have the same text and the same spans exactly
    /// when every character and its style are the same in both: the spans
    /// of a string are determined by what the string shows.
    pub proof fn lemma_same_view(a: RichString, b: RichString)
        requires
            a.wf(),
            b.wf(),
        ensures
            a@ == b@ <==> a.same_as(&b),
    {
        a.lemma_view();
        b.lemma_view();
        if a@ == b@ {
            lemma_well_formed_unique(a.spans(), b.spans());
        }
    }

    /// Every character of a well-formed string lies in exactly one span,
    /// and has the style of that span.
    pub proof fn lemma_one_span_per_char(s: RichString, i: int)
        requires
            s.wf(),
            0 <= i < s@.len(),
        ensures
            exists|k: int| 0 <= k < s.spans().len() && covers(#[trigger] s.spans()[k], i),
            forall|k: int, m: int|
                0 <= k < s.spans().len() && 0 <= m < s.spans().len() && covers(
                    #[trigger] s.spans()[k],
                    i,
                ) && covers(#[trigger] s.spans()[m], i) ==> k == m,
            forall|k: int|
                0 <= k < s.spans().len() && covers(#[trigger] s.spans()[k], i) ==> s@[i].1
                    == s.spans()[k].style,
    {
        s.lemma_view();
        lemma_tiles_partition(s.spans(), i);
        assert forall|k: int|
            0 <= k < s.spans().len() && covers(#[trigger] s.spans()[k], i) implies s@[i].1
            == s.spans()[k].style by {
            lemma_char_styles_index(s.spans(), k, i);
        }
    }

    /// A slice of a slice is a slice of the string: taking the characters
    /// from `c` to `d` of the characters from `a` to `b` gives the same
    /// string as taking the characters from `a + c` to `a + d`.
    pub proof fn lemma_slice_of_slice(
        s: RichString,
        a: int,
        b: int,
        c: int,
        d: int,
        outer: RichString,
        inner: RichString,
        direct: RichString,
    )
        requires
            s.wf(),
            0 <= a <= b <= s@.len(),
            0 <= c <= d <= b - a,
            outer.wf() && outer@ == s@.subrange(a, b),
            inner.wf() && inner@ == outer@.subrange(c, d),
            direct.wf() && direct@ == s@.subrange(a + c, a + d),
        ensures
            s@.subrange(a, b).subrange(c, d) == s@.subrange(a + c, a + d),
            inner.same_as(&direct),
    {
        assert(s@.subrange(a, b).subrange(c, d) =~= s@.subrange(a + c, a + d));
        Self::lemma_same_view(inner, direct);
    }

    /// Splitting a string and joining the raw texts of the pieces with the
    /// separator gives back the raw text of the string.
    pub proof fn lemma_split_join(s: RichString, sep: Seq<char>, pieces: Seq<RichString>)
        requires
            s.wf(),
            forall|k: int| 0 <= k < pieces.len() ==> (#[trigger] pieces[k]).wf(),
            views_of(pieces) == split_pieces(s@, sep),
        ensures
            joined(Seq::new(pieces.len(), |k: int| pieces[k].text()), sep) == s.text(),
    {
        s.lemma_view();
        crate::split::lemma_split_join(s@, sep);
        assert forall|k: int| 0 <= k < pieces.len() implies pieces[k].text() == texts_of(
            split_pieces(s@, sep),
        )[k] by {
            pieces[k].lemma_view();
            assert(views_of(pieces)[k] == pieces[k]@);
        }
        assert(Seq::new(pieces.len(), |k: int| pieces[k].text()) =~= texts_of(
            split_pieces(s@, sep),
        ));
    }

    /// Creates a new empty string
    pub fn new() -> (s: Self)
        ensures
            s.wf(),
            s@ == Seq::<(char, Style)>::empty(),
    {
        let s = RichString { text: String::new(), spans: Vec::new() };
        assert(s@ =~= Seq::<(char, Style)>::empty());
        s
    }

    /// Creates a new string from text and a style
    ///
    /// The style will be applied to the entire string.
    pub fn from(text: &str, style: Style) -> (s: Self)
        ensures
            s.wf(),
            s@ == uniform(text@, style),
    {
        let len = text.unicode_len();
        let mut spans: Vec<StyleSpan> = Vec::new();
        push_run(&mut spans, style, len);
        let s = RichString { text: String::from_str(text), spans };
        assert(s@ =~= uniform(text@, style));
        s
    }

    /// Returns the size of the string *in characters*
    pub fn len(&self) -> (n: usize)
        requires
            self.wf(),
        ensures
            n == self@.len(),
    {
        let n = self.spans.len();
        if n == 0 {
            0
        } else {
            self.spans[n - 1].end
        }
    }

    /// Returns a reference to the inner text
    pub fn raw(&self) -> (text: &str)
        ensures
            text@ == self.text(),
            self.wf() ==> text@ == text_of(self@),
    {
        proof {
            if self.wf() {
                self.lemma_view();
            }
        }
        self.text.as_str()
    }

    /// Returns the style spans of the string, in order
    pub fn style_spans(&self) -> (spans: &[StyleSpan])
        ensures
            spans@ == self.spans(),
    {
        self.spans.as_slice()
    }

    /// Returns the style for a character
    ///
    /// Fails with [`RichStringError::OutOfRange`] where the string has no
    /// character at `index`.
    pub fn style_at(&self, index: usize) -> (result: Result<Style, RichStringError>)
        requires
            self.wf(),
        ensures
            match result {
                Ok(style) => index < self@.len() && style == self@[index as int].1,
                Err(e) => index >= self@.len() && e == RichStringError::OutOfRange,
            },
    {
        let mut k: usize = 0;
        while k < self.spans.len()
            invariant
                self.wf(),
                k <= self.spans.len(),
                k > 0 ==> self.spans[k - 1].end <= index,
            decreases self.spans.len() - k,
        {
            let span = self.spans[k];
            if index < span.end {
                proof {
                    if k > 0 {
                        assert(self.spans@[k - 1].end == self.spans@[k as int].start);
                    }
                    lemma_char_styles_index(self.spans@, k as int, index as int);
                    lemma_char_styles_len(self.spans@);
                }
                return Ok(span.style);
            }
            k += 1;
        }
        Err(RichStringError::OutOfRange)
    }

    /// The characters from index `start` up to, but not including, index
    /// `end`, with their styles.
    fn slice(&self, start: usize, end: usize) -> (piece: Self)
        requires
            self.wf(),
            start <= end <= self@.len(),
        ensures
            piece.wf(),
            piece@ == self@.subrange(start as int, end as int),
    {
        let text = String::from_str(char_slice(self.text.as_str(), start, end));
        let mut spans: Vec<StyleSpan> = Vec::new();
        let mut k: usize = 0;
        proof {
            lemma_char_styles_len(self.spans@);
            assert(char_styles(self.spans@.take(0)).subrange(0, 0) =~= char_styles(spans@));
        }
        while k < self.spans.len()
            invariant
                self.wf(),
                start <= end <= extent(self.spans@),
                k <= self.spans.len(),
                tiles(spans@),
                canonical(spans@),
                extent(spans@) == min(end as int, extent(self.spans@.take(k as int)) as int) - min(
                    start as int,
                    extent(self.spans@.take(k as int)) as int,
                ),
                char_styles(spans@) == char_styles(self.spans@.take(k as int)).subrange(
                    min(start as int, extent(self.spans@.take(k as int)) as int),
                    min(end as int, extent(self.spans@.take(k as int)) as int),
                ),
            decreases self.spans.len() - k,
        {
            let span = self.spans[k];
            let from = if span.start < start {
                start
            } else {
                span.start
            };
            let to = if span.end < end {
                span.end
            } else {
                end
            };
            let overlap = if from < to {
                to - from
            } else {
                0
            };
            proof {
                lemma_prefix_tiles(self.spans@, k as int);
                lemma_prefix_tiles(self.spans@, k + 1);
                lemma_char_styles_len(self.spans@.take(k as int));
                lemma_char_styles_step(self.spans@, k as int);
                lemma_clip_run(
                    char_styles(self.spans@.take(k as int)),
                    span.style,
                    width(span),
                    start as int,
                    end as int,
                );
            }
            push_run(&mut spans, span.style, overlap);
            k += 1;
        }
        proof {
            lemma_take_all(self.spans@);
        }
        let piece = RichString { text, spans };
        assert(piece@ =~= self@.subrange(start as int, end as int));
        piece
    }

    /// Returns a slice of the string
    ///
    /// Starts from index `start` to index `end` *in characters*
    /// and keep the style as is. Fails with [`RichStringError::OutOfRange`]
    /// unless `start <= end <= self.len()`.
    pub fn substring(&self, start: usize, end: usize) -> (result: Result<Self, RichStringError>)
        requires
            self.wf(),
        ensures
            match result {
                Ok(piece) => {
                    &&& start <= end <= self@.len()
                    &&& piece.wf()
                    &&& piece@ == self@.subrange(start as int, end as int)
                    &&& start == 0 && end == self@.len() ==> piece.same_as(self)
                },
                Err(e) => !(start <= end <= self@.len()) && e == RichStringError::OutOfRange,
            },
    {
        if start <= end && end <= self.len() {
            let piece = self.slice(start, end);
            proof {
                if start == 0 && end == self@.len() {
                    assert(self@.subrange(0, self@.len() as int) =~= self@);
                    Self::lemma_same_view(piece, *self);
                }
            }
            Ok(piece)
        } else {
            Err(RichStringError::OutOfRange)
        }
    }

    /// Append another string
    pub fn push(&mut self, other: &Self)
        requires
            old(self).wf(),
            other.wf(),
        ensures
            final(self).wf(),
            final(self)@ == old(self)@ + other@,
            other@.len() == 0 ==> *final(self) == *old(self),
            old(self)@.len() == 0 ==> final(self).same_as(other),
    {
        if other.spans.len() == 0 {
            proof {
                assert(self@ + other@ =~= self@);
                Self::lemma_same_view(*self, *other);
            }
            return;
        }
        let ghost old_text = self.text@;
        let ghost old_styles = char_styles(self.spans@);
        self.text.append(other.text.as_str());
        // Counting the characters also shows that no span end can overflow.
        let total = self.text.as_str().unicode_len();
        let mut k: usize = 0;
        proof {
            lemma_char_styles_len(self.spans@);
            lemma_char_styles_len(other.spans@);
            assert(old_styles + char_styles(other.spans@.take(0)) =~= old_styles);
        }
        while k < other.spans.len()
            invariant
                other.wf(),
                k <= other.spans.len(),
                tiles(self.spans@),
                canonical(self.spans@),
                self.text@ == old_text + other.text@,
                old_styles.len() == old_text.len(),
                total == old_text.len() + extent(other.spans@),
                extent(self.spans@) == old_text.len() + extent(other.spans@.take(k as int)),
                char_styles(self.spans@) == old_styles + char_styles(other.spans@.take(k as int)),
            decreases other.spans.len() - k,
        {
            let span = other.spans[k];
            proof {
                lemma_prefix_tiles(other.spans@, k as int);
                lemma_prefix_tiles(other.spans@, k + 1);
                lemma_char_styles_len(other.spans@);
                lemma_char_styles_step(other.spans@, k as int);
                assert((old_styles + char_styles(other.spans@.take(k as int))) + run(
                    span.style,
                    width(span),
                ) =~= old_styles + char_styles(other.spans@.take(k + 1)));
            }
            push_run(&mut self.spans, span.style, span.end - span.start);
            k += 1;
        }
        proof {
            lemma_take_all(other.spans@);
            assert(self@ =~= old(self)@ + other@);
            if old(self)@.len() == 0 {
                assert(old(self)@ + other@ =~= other@);
                Self::lemma_same_view(*self, *other);
            }
        }
    }

    /// Creates a new string without style and append it
    pub fn push_plain(&mut self, other: &str)
        requires
            old(self).wf(),
        ensures
            final(self).wf(),
            final(self)@ == old(self)@ + uniform(other@, Style::plain()),
    {
        self.push(&Self::from(other, Style::plain()));
    }

    /// The style that text appended to a styled sequence continues with: that
    /// of its last character, the plain style where it has no character.
    pub open spec fn trailing_style(styled: Seq<(char, Style)>) -> Style {
        if styled.len() == 0 {
            Style::plain()
        } else {
            styled.last().1
        }
    }

    /// Creates a new string with the style of the last character and append it
    pub fn push_extend(&mut self, other: &str)
        requires
            old(self).wf(),
        ensures
            final(self).wf(),
            final(self)@ == old(self)@ + uniform(other@, Self::trailing_style(old(self)@)),
    {
        let n = self.spans.len();
        let style = if n == 0 {
            Style::plain()
        } else {
            proof {
                lemma_char_styles_len(self.spans@);
                lemma_char_styles_index(self.spans@, n - 1, self.spans@[n - 1].end - 1);
            }
            self.spans[n - 1].style
        };
        self.push(&Self::from(other, style));
    }

    /// Insert a string at the given index
    ///
    /// Fails with [`RichStringError::OutOfRange`], leaving the string as it
    /// is, where `index` is past the end of the string.
    pub fn insert(&mut self, index: usize, other: &Self) -> (result: Result<(), RichStringError>)
        requires
            old(self).wf(),
            other.wf(),
        ensures
            final(self).wf(),
            match result {
                Ok(()) => {
                    &&& index <= old(self)@.len()
                    &&& final(self)@ == old(self)@.subrange(0, index as int) + other@ + old(
                        self,
                    )@.subrange(index as int, old(self)@.len() as int)
                    &&& other@.len() == 0 ==> *final(self) == *old(self)
                },
                Err(e) => {
                    &&& index > old(self)@.len()
                    &&& e == RichStringError::OutOfRange
                    &&& *final(self) == *old(self)
                },
            },
    {
        let len = self.len();
        if index > len {
            return Err(RichStringError::OutOfRange);
        }
        if other.spans.len() == 0 {
            assert(self@.subrange(0, index as int) + other@ + self@.subrange(
                index as int,
                self@.len() as int,
            ) =~= self@);
            return Ok(());
        }
        let mut joined = self.slice(0, index);
        let after = self.slice(index, len);
        joined.push(other);
        joined.push(&after);
        *self = joined;
        Ok(())
    }

    /// Creates a new string without style and insert it
    ///
    /// Fails as [`RichString::insert`] does.
    pub fn insert_plain(&mut self, index: usize, other: &str) -> (result: Result<
        (),
        RichStringError,
    >)
        requires
            old(self).wf(),
        ensures
            final(self).wf(),
            match result {
                Ok(()) => {
                    &&& index <= old(self)@.len()
                    &&& final(self)@ == old(self)@.subrange(0, index as int) + uniform(
                        other@,
                        Style::plain(),
                    ) + old(self)@.subrange(index as int, old(self)@.len() as int)
                },
                Err(e) => {
                    &&& index > old(self)@.len()
                    &&& e == RichStringError::OutOfRange
                    &&& *final(self) == *old(self)
                },
            },
    {
        self.insert(index, &Self::from(other, Style::plain()))
    }

    /// The style that text inserted into a styled sequence at `index`
    /// continues with: that of the character at `index`, the plain style
    /// where there is no such character.
    pub open spec fn style_to_extend(styled: Seq<(char, Style)>, index: int) -> Style {
        if 0 <= index < styled.len() {
            styled[index].1
        } else {
            Style::plain()
        }
    }

    /// Creates a new string with the style of the character at the index and insert it
    ///
    /// Text inserted at the end of the string, where there is no such
    /// character, is plain. Fails as [`RichString::insert`] does.
    pub fn insert_extend(&mut self, index: usize, other: &str) -> (result: Result<
        (),
        RichStringError,
    >)
        requires
            old(self).wf(),
        ensures
            final(self).wf(),
            match result {
                Ok(()) => {
                    &&& index <= old(self)@.len()
                    &&& final(self)@ == old(self)@.subrange(0, index as int) + uniform(
                        other@,
                        Self::style_to_extend(old(self)@, index as int),
                    ) + old(self)@.subrange(index as int, old(self)@.len() as int)
                },
                Err(e) => {
                    &&& index > old(self)@.len()
                    &&& e == RichStringError::OutOfRange
                    &&& *final(self) == *old(self)
                },
            },
    {
        let style = match self.style_at(index) {
            Ok(style) => style,
            Err(_) => Style::plain(),
        };
        self.insert(index, &Self::from(other, style))
    }

    /// Split the string at `separator`
    ///
    /// The pieces are what remains when every occurrence of `separator` is
    /// cut out, searching from left to right and resuming behind each
    /// occurrence found. An occurrence at the start or at the end of the
    /// string leaves an empty piece there. Fails with
    /// [`RichStringError::EmptySeparator`] where `separator` has no character.
    pub fn split(&self, separator: &str) -> (result: Result<Vec<Self>, RichStringError>)
        requires
            self.wf(),
        ensures
            match result {
                Ok(pieces) => {
                    &&& separator@.len() > 0
                    &&& views_of(pieces@) == split_pieces(self@, separator@)
                    &&& forall|k: int| 0 <= k < pieces.len() ==> (#[trigger] pieces[k]).wf()
                },
                Err(e) => separator@.len() == 0 && e == RichStringError::EmptySeparator,
            },
    {
        let n = separator.unicode_len();
        if n == 0 {
            return Err(RichStringError::EmptySeparator);
        }
        let sep = String::from_str(separator);
        let len = self.len();
        let mut pieces: Vec<RichString> = Vec::new();
        let mut last: usize = 0;
        let mut i: usize = 0;
        proof {
            self.lemma_view();
            assert(self@.subrange(0, len as int) =~= self@);
            assert(views_of(pieces@) + split_pieces(self@, sep@) =~= split_pieces(self@, sep@));
        }
        while i <= len && n <= len - i
            invariant
                self.wf(),
                sep@ == separator@,
                n == sep@.len(),
                n > 0,
                len == self@.len(),
                self.text@ == text_of(self@),
                last <= i <= len,
                forall|k: int| 0 <= k < pieces.len() ==> (#[trigger] pieces[k]).wf(),
                forall|j: int| last <= j < i ==> !occurs_at(self.text@, sep@, j),
                split_pieces(self@, sep@) == views_of(pieces@) + split_pieces(
                    self@.subrange(last as int, len as int),
                    sep@,
                ),
            decreases len - i,
        {
            let window = String::from_str(char_slice(self.text.as_str(), i, i + n));
            if window == sep {
                let piece = self.slice(last, i);
                proof {
                    lemma_split_step(self@, sep@, last as int, i as int);
                    assert((views_of(pieces@) + seq![piece@]) + split_pieces(
                        self@.subrange(i + n, len as int),
                        sep@,
                    ) =~= views_of(pieces@) + (seq![piece@] + split_pieces(
                        self@.subrange(i + n, len as int),
                        sep@,
                    )));
                    assert(views_of(pieces@.push(piece)) =~= views_of(pieces@) + seq![piece@]);
                }
                pieces.push(piece);
                last = i + n;
                i = i + n;
            } else {
                i += 1;
            }
        }
        let piece = self.slice(last, len);
        proof {
            lemma_split_end(self@, sep@, last as int, i as int);
            assert(views_of(pieces@.push(piece)) =~= views_of(pieces@) + seq![piece@]);
        }
        pieces.push(piece);
        Ok(pieces)
    }

    /// Merges `style` into the style of every character: complementing where
    /// `overwrite` is false, overwriting where it is true.
    fn restyle(&mut self, style: Style, overwrite: bool)
        requires
            old(self).wf(),
        ensures
            final(self).wf(),
            final(self).text() == old(self).text(),
            char_styles(final(self).spans()) == blended_all(
                char_styles(old(self).spans()),
                style,
                overwrite,
            ),
    {
        let mut spans: Vec<StyleSpan> = Vec::new();
        let mut k: usize = 0;
        proof {
            lemma_char_styles_len(self.spans@);
            assert(char_styles(spans@) =~= blended_all(
                char_styles(self.spans@.take(0)),
                style,
                overwrite,
            ));
        }
        while k < self.spans.len()
            invariant
                self.wf(),
                k <= self.spans.len(),
                tiles(spans@),
                canonical(spans@),
                extent(spans@) == extent(self.spans@.take(k as int)),
                char_styles(spans@) == blended_all(
                    char_styles(self.spans@.take(k as int)),
                    style,
                    overwrite,
                ),
            decreases self.spans.len() - k,
        {
            let span = self.spans[k];
            let blended = if overwrite {
                style.merge(span.style)
            } else {
                span.style.merge(style)
            };
            proof {
                lemma_prefix_tiles(self.spans@, k as int);
                lemma_prefix_tiles(self.spans@, k + 1);
                lemma_char_styles_len(self.spans@);
                lemma_char_styles_step(self.spans@, k as int);
                assert(blended_all(char_styles(self.spans@.take(k as int)), style, overwrite) + run(
                    blended,
                    width(span),
                ) =~= blended_all(char_styles(self.spans@.take(k + 1)), style, overwrite));
            }
            push_run(&mut spans, blended, span.end - span.start);
            k += 1;
        }
        proof {
            lemma_take_all(self.spans@);
        }
        self.spans = spans;
    }

    /// See [Self::complement()].
    pub fn into_complemented(self, style: Style) -> (s: Self)
        requires
            self.wf(),
        ensures
            s.wf(),
            s@ == complemented(self@, style),
    {
        let mut s = self;
        s.complement(style);
        s
    }

    /// Add a style to the entire string without overriding already present styles
    pub fn complement(&mut self, style: Style)
        requires
            old(self).wf(),
        ensures
            final(self).wf(),
            final(self)@ == complemented(old(self)@, style),
    {
        self.restyle(style, false);
        proof {
            lemma_char_styles_len(old(self).spans@);
            assert(self@ =~= complemented(old(self)@, style));
        }
    }

    /// See [Self::overwrite()].
    pub fn into_overwritten(self, style: Style) -> (s: Self)
        requires
            self.wf(),
        ensures
            s.wf(),
            s@ == overwritten(self@, style),
    {
        let mut s = self;
        s.overwrite(style);
        s
    }

    /// Add a style to the entire string, overriding already present styles
    pub fn overwrite(&mut self, style: Style)
        requires
            old(self).wf(),
        ensures
            final(self).wf(),
            final(self)@ == overwritten(old(self)@, style),
    {
        self.restyle(style, true);
        proof {
            lemma_char_styles_len(old(self).spans@);
            assert(self@ =~= overwritten(old(self)@, style));
        }
    }
}

impl Clone for RichString {
    /// An independent copy: the same text and the same spans.
    fn clone(&self) -> (copy: Self)
        ensures
            copy.same_as(self),
            copy@ == self@,
            copy.wf() == self.wf(),
    {
        RichString { text: self.text.clone(), spans: self.spans.clone() }
    }
}

impl PartialEqSpecImpl for RichString {
    open spec fn obeys_eq_spec() -> bool {
        true
    }

    /// Two rich strings are equal when they have the same text and the same
    /// spans.
    open spec fn eq_spec(&self, other: &RichString) -> bool {
        self.same_as(other)
    }
}

impl PartialEq for RichString {
    fn eq(&self, other: &RichString) -> (equal: bool) {
        if self.text != other.text || self.spans.len() != other.spans.len() {
            return false;
        }
        let mut k: usize = 0;
        while k < self.spans.len()
            invariant
                k <= self.spans.len(),
                self.spans.len() == other.spans.len(),
                forall|j: int| 0 <= j < k ==> self.spans@[j] == other.spans@[j],
            decreases self.spans.len() - k,
        {
            if self.spans[k] != other.spans[k] {
                return false;
            }
            k += 1;
        }
        assert(self.spans@ =~= other.spans@);
        true
    }
}

/// The view of each of `pieces`.
pub open spec fn views_of(pieces: Seq<RichString>) -> Seq<Seq<(char, Style)>> {
    Seq::new(pieces.len(), |k: int| pieces[k]@)
}

/// Where the separator stands at index `i` and nowhere from index `last` up
/// to `i`, what is left from `last` on splits into the piece from `last`
/// to `i` and the pieces of what stands behind the separator.
proof fn lemma_split_step(styled: Seq<(char, Style)>, sep: Seq<char>, last: int, i: int)
    requires
        sep.len() > 0,
        0 <= last <= i,
        occurs_at(text_of(styled), sep, i),
        forall|j: int| last <= j < i ==> !occurs_at(text_of(styled), sep, j),
    ensures
        split_pieces(styled.subrange(last, styled.len() as int), sep) == seq![
            styled.subrange(last, i),
        ] + split_pieces(styled.subrange(i + sep.len(), styled.len() as int), sep),
{
    let text = text_of(styled);
    let rest = styled.subrange(last, styled.len() as int);
    let rest_text = text_of(rest);
    assert(rest_text.subrange(i - last, i - last + sep.len()) =~= text.subrange(
        i,
        i + sep.len(),
    ));
    assert forall|j: int| 0 <= j < i - last implies !occurs_at(rest_text, sep, j) by {
        if occurs_at(rest_text, sep, j) {
            assert(text.subrange(last + j, last + j + sep.len()) =~= rest_text.subrange(
                j,
                j + sep.len(),
            ));
            assert(occurs_at(text, sep, last + j));
        }
    }
    lemma_first_occurrence_unique(rest_text, sep, i - last);
    assert(rest.subrange(0, i - last) =~= styled.subrange(last, i));
    assert(rest.subrange(i - last + sep.len(), rest.len() as int) =~= styled.subrange(
        i + sep.len(),
        styled.len() as int,
    ));
}

/// Where the separator stands nowhere from index `last` up to `i`, and is
/// too long to stand at `i` or behind it, what is left from `last` on is a
/// single piece.
proof fn lemma_split_end(styled: Seq<(char, Style)>, sep: Seq<char>, last: int, i: int)
    requires
        0 <= last <= i <= styled.len(),
        i + sep.len() > styled.len(),
        forall|j: int| last <= j < i ==> !occurs_at(text_of(styled), sep, j),
    ensures
        split_pieces(styled.subrange(last, styled.len() as int), sep) == seq![
            styled.subrange(last, styled.len() as int),
        ],
{
    let text = text_of(styled);
    let rest = styled.subrange(last, styled.len() as int);
    let rest_text = text_of(rest);
    assert forall|j: int| !occurs_at(rest_text, sep, j) by {
        if occurs_at(rest_text, sep, j) {
            assert(text.subrange(last + j, last + j + sep.len()) =~= rest_text.subrange(
                j,
                j + sep.len(),
            ));
            assert(occurs_at(text, sep, last + j));
        }
    }
}

/// `own` merged with `given`: `given` filling in what `own` inherits, or,
/// where `overwrite` is true, `own` filling in what `given` inherits.
pub open spec fn blend(own: Style, given: Style, overwrite: bool) -> Style {
    if overwrite {
        given.merged(own)
    } else {
        own.merged(given)
    }
}

/// Each of `styles` blended with `given`.
pub open spec fn blended_all(styles: Seq<Style>, given: Style, overwrite: bool) -> Seq<Style> {
    Seq::new(styles.len(), |i: int| blend(styles[i], given, overwrite))
}

/// Cutting the range from `start` to `end` out of styles that end in a run
/// gives the cut of what is before the run, then the part of the run that
/// lies inside the range.
proof fn lemma_clip_run(styles: Seq<Style>, style: Style, more: nat, start: int, end: int)
    requires
        0 <= start <= end,
    ensures
        ({
            let a = styles.len() as int;
            let b = a + more;
            (styles + run(style, more)).subrange(min(start, b), min(end, b)) == styles.subrange(
                min(start, a),
                min(end, a),
            ) + run(style, ((min(end, b) - min(start, b)) - (min(end, a) - min(start, a))) as nat)
        }),
{
    let a = styles.len() as int;
    let b = a + more;
    assert((styles + run(style, more)).subrange(min(start, b), min(end, b)) =~= styles.subrange(
        min(start, a),
        min(end, a),
    ) + run(style, ((min(end, b) - min(start, b)) - (min(end, a) - min(start, a))) as nat));
}

} // verus!
