//! Span lists and the per-character styles they stand for.
//!
//! A span list is a run-length encoding of a sequence of styles: each span
//! stands for `end - start` copies of its style. [`char_styles`] decodes a
//! list; [`well_formed`] says when a list is the one canonical encoding of
//! what it decodes to.

use crate::style::{Style, StyleSpan};
use vstd::prelude::*;

verus! {

/// The number of characters a span covers.
pub open spec fn width(span: StyleSpan) -> nat {
    if span.start <= span.end {
        (span.end - span.start) as nat
    } else {
        0
    }
}

/// `width` copies of `style`.
pub open spec fn run(style: Style, width: nat) -> Seq<Style> {
    Seq::new(width, |i: int| style)
}

/// The index one past the last character that `spans` covers.
pub open spec fn extent(spans: Seq<StyleSpan>) -> nat {
    if spans.len() == 0 {
        0
    } else {
        spans.last().end as nat
    }
}

/// The spans lie end to end from index 0 on, and none of them is empty.
pub open spec fn tiles(spans: Seq<StyleSpan>) -> bool {
    &&& spans.len() > 0 ==> spans[0].start == 0
    &&& forall|i: int| 0 <= i < spans.len() ==> (#[trigger] spans[i]).start < spans[i].end
    &&& forall|i: int, j: int|
        0 <= i && j == i + 1 && j < spans.len() ==> (#[trigger] spans[i]).end == (
        #[trigger] spans[j]).start
}

/// No two neighbouring spans carry the same style.
pub open spec fn canonical(spans: Seq<StyleSpan>) -> bool {
    forall|i: int, j: int|
        0 <= i && j == i + 1 && j < spans.len() ==> (#[trigger] spans[i]).style != (
        #[trigger] spans[j]).style
}

/// The spans partition the indices below `len` into non-empty ranges, in
/// order, and neighbouring spans differ in style.
pub open spec fn well_formed(spans: Seq<StyleSpan>, len: nat) -> bool {
    &&& tiles(spans)
    &&& canonical(spans)
    &&& extent(spans) == len
}

/// The style of each character that `spans` covers: every span contributes
/// as many copies of its style as it is wide.
pub open spec fn char_styles(spans: Seq<StyleSpan>) -> Seq<Style>
    decreases spans.len(),
{
    if spans.len() == 0 {
        Seq::empty()
    } else {
        char_styles(spans.drop_last()) + run(spans.last().style, width(spans.last()))
    }
}

/// Every prefix of a tiling is a tiling.
pub proof fn lemma_prefix_tiles(spans: Seq<StyleSpan>, k: int)
    requires
        tiles(spans),
        0 <= k <= spans.len(),
    ensures
        tiles(spans.take(k)),
        canonical(spans) ==> canonical(spans.take(k)),
        k > 0 ==> extent(spans.take(k)) == spans[k - 1].end,
        k < spans.len() ==> extent(spans.take(k)) == spans[k].start,
{
    let p = spans.take(k);
    assert forall|i: int, j: int| 0 <= i && j == i + 1 && j < p.len() implies (#[trigger] p[i]).end
        == (#[trigger] p[j]).start by {
        assert(p[i] == spans[i] && p[j] == spans[j]);
    }
    if canonical(spans) {
        assert forall|i: int, j: int| 0 <= i && j == i + 1 && j < p.len() implies (
        #[trigger] p[i]).style != (#[trigger] p[j]).style by {
            assert(p[i] == spans[i] && p[j] == spans[j]);
        }
    }
    if 0 < k < spans.len() {
        assert(spans[k - 1].end == spans[k].start);
    }
}

/// Taking one more span of a list appends that span's run to the styles.
pub proof fn lemma_char_styles_step(spans: Seq<StyleSpan>, k: int)
    requires
        0 <= k < spans.len(),
    ensures
        char_styles(spans.take(k + 1)) == char_styles(spans.take(k)) + run(
            spans[k].style,
            width(spans[k]),
        ),
{
    assert(spans.take(k + 1).drop_last() =~= spans.take(k));
}

/// A tiling covers as many characters as it decodes to, and its spans end in
/// ascending order.
pub proof fn lemma_char_styles_len(spans: Seq<StyleSpan>)
    requires
        tiles(spans),
    ensures
        char_styles(spans).len() == extent(spans),
        forall|k: int| 0 <= k < spans.len() ==> (#[trigger] spans[k]).end <= extent(spans),
    decreases spans.len(),
{
    if spans.len() > 0 {
        let n = spans.len() as int;
        lemma_prefix_tiles(spans, n - 1);
        assert(spans.take(n - 1) =~= spans.drop_last());
        lemma_char_styles_len(spans.drop_last());
        assert forall|k: int| 0 <= k < spans.len() implies (#[trigger] spans[k]).end <= extent(
            spans,
        ) by {
            if k < n - 1 {
                assert(spans.drop_last()[k] == spans[k]);
            }
        }
    }
}

/// In a tiling, each character has the style of the span that covers it.
pub proof fn lemma_char_styles_index(spans: Seq<StyleSpan>, k: int, i: int)
    requires
        tiles(spans),
        0 <= k < spans.len(),
        spans[k].start <= i < spans[k].end,
    ensures
        0 <= i < char_styles(spans).len(),
        char_styles(spans)[i] == spans[k].style,
    decreases spans.len(),
{
    let n = spans.len() as int;
    lemma_char_styles_len(spans);
    lemma_prefix_tiles(spans, n - 1);
    assert(spans.take(n - 1) =~= spans.drop_last());
    lemma_char_styles_len(spans.drop_last());
    if k < n - 1 {
        assert(spans.drop_last()[k] == spans[k]);
        lemma_char_styles_index(spans.drop_last(), k, i);
    }
}

/// The whole list is its own longest prefix.
pub proof fn lemma_take_all(spans: Seq<StyleSpan>)
    ensures
        spans.take(spans.len() as int) == spans,
{
    assert(spans.take(spans.len() as int) =~= spans);
}

/// Whether `span` covers index `i`.
pub open spec fn covers(span: StyleSpan, i: int) -> bool {
    span.start <= i < span.end
}

/// In a tiling, an earlier span ends at or before the start of a later one.
pub proof fn lemma_tiles_ordered(spans: Seq<StyleSpan>, k: int, m: int)
    requires
        tiles(spans),
        0 <= k < m < spans.len(),
    ensures
        spans[k].end <= spans[m].start,
    decreases m - k,
{
    assert(spans[m - 1].end == spans[m].start);
    if k < m - 1 {
        lemma_tiles_ordered(spans, k, m - 1);
        assert(spans[m - 1].start < spans[m - 1].end);
    }
}

/// A tiling partitions the indices below its extent: each of them is
/// covered by exactly one span.
pub proof fn lemma_tiles_partition(spans: Seq<StyleSpan>, i: int)
    requires
        tiles(spans),
        0 <= i < extent(spans),
    ensures
        exists|k: int| 0 <= k < spans.len() && covers(#[trigger] spans[k], i),
        forall|k: int, m: int|
            0 <= k < spans.len() && 0 <= m < spans.len() && covers(#[trigger] spans[k], i)
                && covers(#[trigger] spans[m], i) ==> k == m,
    decreases spans.len(),
{
    let n = spans.len() as int;
    if spans[n - 1].start <= i {
        assert(covers(spans[n - 1], i));
    } else {
        lemma_prefix_tiles(spans, n - 1);
        assert(spans[n - 2].end == spans[n - 1].start);
        lemma_tiles_partition(spans.take(n - 1), i);
        let k = choose|k: int| 0 <= k < n - 1 && covers(#[trigger] spans.take(n - 1)[k], i);
        assert(covers(spans[k], i));
    }
    assert forall|k: int, m: int|
        0 <= k < spans.len() && 0 <= m < spans.len() && covers(#[trigger] spans[k], i) && covers(
            #[trigger] spans[m],
            i,
        ) implies k == m by {
        if k < m {
            lemma_tiles_ordered(spans, k, m);
        }
        if m < k {
            lemma_tiles_ordered(spans, m, k);
        }
    }
}

/// Two well-formed span lists that stand for the same styles are the same
/// list: the encoding is unique.
pub proof fn lemma_well_formed_unique(a: Seq<StyleSpan>, b: Seq<StyleSpan>)
    requires
        tiles(a),
        canonical(a),
        tiles(b),
        canonical(b),
        char_styles(a) == char_styles(b),
    ensures
        a == b,
    decreases a.len() + b.len(),
{
    lemma_char_styles_len(a);
    lemma_char_styles_len(b);
    if a.len() == 0 || b.len() == 0 {
        if a.len() > 0 {
            assert(a[a.len() - 1].start < a[a.len() - 1].end);
        }
        if b.len() > 0 {
            assert(b[b.len() - 1].start < b[b.len() - 1].end);
        }
        assert(a =~= b);
    } else {
        let n = a.len() as int;
        let m = b.len() as int;
        let x = a[n - 1];
        let y = b[m - 1];
        let len = extent(a) as int;
        assert(x.start < x.end && y.start < y.end);
        lemma_char_styles_index(a, n - 1, len - 1);
        lemma_char_styles_index(b, m - 1, len - 1);
        assert(x.style == y.style);
        if x.start < y.start {
            lemma_first_is_zero_or_preceded(b, m - 1);
            lemma_char_styles_index(b, m - 2, y.start - 1);
            lemma_char_styles_index(a, n - 1, y.start - 1);
            assert(false);
        }
        if y.start < x.start {
            lemma_first_is_zero_or_preceded(a, n - 1);
            lemma_char_styles_index(a, n - 2, x.start - 1);
            lemma_char_styles_index(b, m - 1, x.start - 1);
            assert(false);
        }
        assert(x == y);
        lemma_prefix_tiles(a, n - 1);
        lemma_prefix_tiles(b, m - 1);
        assert(a.take(n - 1) =~= a.drop_last());
        assert(b.take(m - 1) =~= b.drop_last());
        lemma_char_styles_len(a.drop_last());
        lemma_char_styles_len(b.drop_last());
        assert(char_styles(a.drop_last()) =~= char_styles(a).take(x.start as int));
        assert(char_styles(b.drop_last()) =~= char_styles(b).take(y.start as int));
        lemma_well_formed_unique(a.drop_last(), b.drop_last());
        assert(a =~= a.drop_last().push(x));
        assert(b =~= b.drop_last().push(y));
    }
}

/// A span of a tiling that does not start at 0 has a neighbour before it,
/// which ends where it starts and, in a canonical list, differs in style.
proof fn lemma_first_is_zero_or_preceded(spans: Seq<StyleSpan>, k: int)
    requires
        tiles(spans),
        0 <= k < spans.len(),
        spans[k].start > 0,
    ensures
        k > 0,
        spans[k - 1].end == spans[k].start,
        spans[k - 1].start < spans[k - 1].end,
        canonical(spans) ==> spans[k - 1].style != spans[k].style,
{
    assert(spans[0].start == 0);
    assert(spans[k - 1].end == spans[k].start);
}

/// Lengthening the last span of a well-formed list by `more` characters
/// leaves it well formed and appends `more` copies of that span's style.
proof fn lemma_lengthen_last(before: Seq<StyleSpan>, after: Seq<StyleSpan>, more: nat)
    requires
        tiles(before),
        canonical(before),
        before.len() > 0,
        after.len() == before.len(),
        forall|i: int| 0 <= i < before.len() - 1 ==> after[i] == before[i],
        after.last().start == before.last().start,
        after.last().end == before.last().end + more,
        after.last().style == before.last().style,
    ensures
        tiles(after),
        canonical(after),
        extent(after) == extent(before) + more,
        char_styles(after) == char_styles(before) + run(before.last().style, more),
{
    let n = before.len() as int;
    let style = before.last().style;
    assert(before[n - 1].start < before[n - 1].end);
    assert(after.drop_last() =~= before.drop_last());
    assert(run(style, width(after.last())) =~= run(style, width(before.last())) + run(
        style,
        more,
    ));
    assert forall|i: int| 0 <= i < after.len() implies (#[trigger] after[i]).start
        < after[i].end by {
        assert(before[i].start < before[i].end);
    }
    assert forall|i: int, j: int| 0 <= i && j == i + 1 && j < after.len() implies (
    #[trigger] after[i]).end == (#[trigger] after[j]).start by {
        assert(before[i].end == before[j].start);
    }
    assert forall|i: int, j: int| 0 <= i && j == i + 1 && j < after.len() implies (
    #[trigger] after[i]).style != (#[trigger] after[j]).style by {
        assert(before[i].style != before[j].style);
    }
}

/// A non-empty span of another style, starting where a well-formed list
/// ends, can be appended to it.
proof fn lemma_append_span(before: Seq<StyleSpan>, added: StyleSpan)
    requires
        tiles(before),
        canonical(before),
        added.start == extent(before),
        added.start < added.end,
        before.len() > 0 ==> before.last().style != added.style,
    ensures
        tiles(before.push(added)),
        canonical(before.push(added)),
        extent(before.push(added)) == added.end,
        char_styles(before.push(added)) == char_styles(before) + run(added.style, width(added)),
{
    let n = before.len() as int;
    let after = before.push(added);
    assert(after.drop_last() =~= before);
    assert forall|i: int| 0 <= i < after.len() implies (#[trigger] after[i]).start
        < after[i].end by {
        if i < n {
            assert(before[i].start < before[i].end);
        }
    }
    assert forall|i: int, j: int| 0 <= i && j == i + 1 && j < after.len() implies (
    #[trigger] after[i]).end == (#[trigger] after[j]).start by {
        if j < n {
            assert(before[i].end == before[j].start);
        }
    }
    assert forall|i: int, j: int| 0 <= i && j == i + 1 && j < after.len() implies (
    #[trigger] after[i]).style != (#[trigger] after[j]).style by {
        if j < n {
            assert(before[i].style != before[j].style);
        }
    }
}

/// Appends `width` characters of `style` to a well-formed span list: nothing
/// for no characters, a longer last span where the last span has that style,
/// a new span otherwise.
pub(crate) fn push_run(spans: &mut Vec<StyleSpan>, style: Style, width: usize)
    requires
        tiles(old(spans)@),
        canonical(old(spans)@),
        extent(old(spans)@) + width <= usize::MAX,
    ensures
        tiles(final(spans)@),
        canonical(final(spans)@),
        extent(final(spans)@) == extent(old(spans)@) + width,
        char_styles(final(spans)@) == char_styles(old(spans)@) + run(style, width as nat),
{
    let n = spans.len();
    if width == 0 {
        assert(char_styles(spans@) + run(style, 0) =~= char_styles(spans@));
    } else if n > 0 && spans[n - 1].style == style {
        let last = spans[n - 1];
        spans.set(n - 1, StyleSpan { start: last.start, end: last.end + width, style });
        proof {
            lemma_lengthen_last(old(spans)@, spans@, width as nat);
        }
    } else {
        let start = if n == 0 {
            0
        } else {
            spans[n - 1].end
        };
        let added = StyleSpan { start, end: start + width, style };
        spans.push(added);
        proof {
            lemma_append_span(old(spans)@, added);
        }
    }
}

} // verus!
