//! Setting the lines of a buffer from styled spans of text: the spans are joined,
//! split into paragraphs, and each paragraph becomes a line whose attribute spans are
//! those of the text spans that overlap it, where they differ from the defaults.

use vstd::prelude::*;

use crate::attrs::{assign_range, attrs_eq, Attrs, AttrsList, AttrsView};
use crate::bidi_para::{
    lemma_byte_range_cut, lemma_paragraph_text_bytes, para_ranges, para_ranges_from, paragraph_bytes,
    paragraph_text, BidiParagraphs,
};
use crate::buffer_line::{new_line_view, BufferLine, LineView};
use crate::layout::Shaping;
use crate::rope_text::LineEnding;
use crate::strings::{
    byte_len, concat_texts, lemma_byte_len_at_least_len, lemma_split_at_join, split_at_byte, string_push_str,
    text_len,
};

verus! {

/// The texts of the spans.
pub open spec fn rich_texts(spans: Seq<(Seq<char>, AttrsView)>) -> Seq<Seq<char>> {
    spans.map_values(|s: (Seq<char>, AttrsView)| s.0)
}

/// The spans' texts joined.
pub open spec fn rich_string(spans: Seq<(Seq<char>, AttrsView)>) -> Seq<char> {
    concat_texts(rich_texts(spans))
}

/// The byte where span `i` starts in the joined text.
pub open spec fn span_start(spans: Seq<(Seq<char>, AttrsView)>, i: int) -> int {
    byte_len(concat_texts(rich_texts(spans).take(i))) as int
}

/// The larger of two integers.
pub open spec fn max_int(a: int, b: int) -> int {
    if a < b {
        b
    } else {
        a
    }
}

/// The smaller of two integers.
pub open spec fn min_int(a: int, b: int) -> int {
    if a < b {
        a
    } else {
        b
    }
}

/// The attribute spans of the line at bytes `lb` of the joined text, from the first
/// `k` text spans: each that overlaps the line and has attributes other than the
/// defaults assigns them over the overlap, counted from the line's start.
pub open spec fn line_points(spans: Seq<(Seq<char>, AttrsView)>, dflt: AttrsView, lb: (int, int), k: int) -> Map<
    usize,
    AttrsView,
>
    decreases k,
{
    if k <= 0 {
        Map::empty()
    } else {
        let m = line_points(spans, dflt, lb, k - 1);
        let s = max_int(lb.0, span_start(spans, k - 1));
        let e = min_int(lb.1, span_start(spans, k));
        if s < e && spans[k - 1].1 != dflt {
            assign_range(m, (s - lb.0) as usize, (e - lb.0) as usize, spans[k - 1].1)
        } else {
            m
        }
    }
}

/// The lines set from styled spans: one per paragraph of the joined text, with its
/// text (without the separator), the default attributes and the spans' attributes
/// over it; a single empty line where the text is empty. The lines carry the default
/// ending.
pub open spec fn rich_lines(spans: Seq<(Seq<char>, AttrsView)>, dflt: AttrsView, shaping: Shaping) -> Seq<LineView> {
    let t = rich_string(spans);
    let rs = para_ranges(t);
    if rs.len() == 0 {
        seq![new_line_view(Seq::empty(), LineEnding::Lf, dflt, Map::empty(), shaping)]
    } else {
        rs.map_values(
            |r: (int, int)|
                new_line_view(
                    paragraph_text(t, r),
                    LineEnding::Lf,
                    dflt,
                    line_points(spans, dflt, paragraph_bytes(t, r), spans.len() as int),
                    shaping,
                ),
        )
    }
}

/// Joining more texts extends the joined text.
proof fn lemma_concat_extends(ts: Seq<Seq<char>>, i: int, j: int)
    requires
        0 <= i <= j <= ts.len(),
    ensures
        concat_texts(ts.take(j)) == concat_texts(ts.take(i)) + concat_texts(ts.subrange(i, j)),
    decreases j - i,
{
    if j == i {
        assert(ts.subrange(i, j) =~= Seq::<Seq<char>>::empty());
        assert(concat_texts(ts.take(i)) + Seq::<char>::empty() =~= concat_texts(ts.take(i)));
    } else {
        lemma_concat_extends(ts, i, j - 1);
        assert(ts.take(j).drop_last() =~= ts.take(j - 1));
        assert(ts.take(j).last() == ts[j - 1]);
        assert(ts.subrange(i, j).drop_last() =~= ts.subrange(i, j - 1));
        assert(ts.subrange(i, j).last() == ts[j - 1]);
        assert(concat_texts(ts.take(j)) =~= concat_texts(ts.take(i)) + concat_texts(ts.subrange(i, j)));
    }
}

/// The character where span `i` starts in the joined text.
pub open spec fn span_char(spans: Seq<(Seq<char>, AttrsView)>, i: int) -> int {
    concat_texts(rich_texts(spans).take(i)).len() as int
}

/// Span starts, as characters and as bytes, grow with the span, start at 0 and end at
/// the end of the joined text; the text before a span start is the spans before it.
proof fn lemma_span_starts(spans: Seq<(Seq<char>, AttrsView)>, i: int, j: int)
    requires
        0 <= i <= j <= spans.len(),
    ensures
        0 <= span_char(spans, i) <= span_char(spans, j) <= rich_string(spans).len(),
        rich_string(spans).take(span_char(spans, i)) == concat_texts(rich_texts(spans).take(i)),
        span_start(spans, i) == byte_len(rich_string(spans).take(span_char(spans, i))),
        span_start(spans, i) <= span_start(spans, j),
        span_char(spans, 0) == 0,
        span_char(spans, spans.len() as int) == rich_string(spans).len(),
{
    let ts = rich_texts(spans);
    let n = spans.len() as int;
    assert(ts.take(n) =~= ts);
    assert(ts.take(0) =~= Seq::<Seq<char>>::empty());
    lemma_concat_extends(ts, i, j);
    lemma_concat_extends(ts, j, n);
    lemma_concat_extends(ts, i, n);
    let a = concat_texts(ts.take(i));
    let t = rich_string(spans);
    assert(t == a + concat_texts(ts.subrange(i, n)));
    assert(t.take(a.len() as int) =~= a);
    lemma_split_at_join(a, concat_texts(ts.subrange(i, j)));
}

/// Bytes before a character grow with the character.
proof fn lemma_bytes_grow(t: Seq<char>, x: int, y: int)
    requires
        0 <= x <= y <= t.len(),
    ensures
        byte_len(t.take(x)) <= byte_len(t.take(y)),
        x < y ==> byte_len(t.take(x)) < byte_len(t.take(y)),
        byte_len(t.take(y)) == byte_len(t.take(x)) + byte_len(t.subrange(x, y)),
{
    assert(t.take(y) =~= t.take(x) + t.subrange(x, y));
    lemma_split_at_join(t.take(x), t.subrange(x, y));
    lemma_byte_len_at_least_len(t.subrange(x, y));
}

/// Paragraphs follow one another: each starts where the one before ends, the first at
/// `start`, and the last ends at the end of the text.
proof fn lemma_para_ranges_chain(cs: Seq<char>, i: int, start: int)
    requires
        0 <= start <= i <= cs.len(),
    ensures
        ({
            let rs = para_ranges_from(cs, i, start);
            &&& rs.len() > 0 ==> rs[0].0 == start && rs.last().1 == cs.len()
            &&& forall|j: int| 0 <= j < rs.len() - 1 ==> (#[trigger] rs[j]).1 == rs[j + 1].0
            &&& forall|j: int| 0 <= j < rs.len() ==> start <= (#[trigger] rs[j]).0 < rs[j].1 <= cs.len()
            &&& rs.len() == 0 ==> start == cs.len()
        }),
    decreases cs.len() - i,
{
    let rs = para_ranges_from(cs, i, start);
    if i >= cs.len() {
        if start < cs.len() {
            assert(rs == seq![(start, cs.len() as int)]);
        }
    } else if crate::bidi_para::paragraph_separator(cs[i]) {
        lemma_para_ranges_chain(cs, i + 1, i + 1);
        let rest = para_ranges_from(cs, i + 1, i + 1);
        assert(rs == seq![(start, i + 1)] + rest);
        assert forall|j: int| 0 <= j < rs.len() - 1 implies (#[trigger] rs[j]).1 == rs[j + 1].0 by {
            assert(rs[j + 1] == rest[j]);
            if j > 0 {
                assert(rs[j] == rest[j - 1]);
            }
        }
        assert forall|j: int| 0 <= j < rs.len() implies start <= (#[trigger] rs[j]).0 < rs[j].1 <= cs.len() by {
            if j > 0 {
                assert(rs[j] == rest[j - 1]);
            }
        }
        if rest.len() > 0 {
            assert(rs.last() == rest.last());
        } else {
            assert(rs.last() == (start, i + 1));
        }
    } else {
        lemma_para_ranges_chain(cs, i + 1, start);
        assert(rs == para_ranges_from(cs, i + 1, start));
    }
}

/// Spans before `k` that end by the line's start add nothing to it.
proof fn lemma_line_points_none_before(spans: Seq<(Seq<char>, AttrsView)>, dflt: AttrsView, lb: (int, int), k: int)
    requires
        0 <= k <= spans.len(),
        span_start(spans, k) <= lb.0,
    ensures
        line_points(spans, dflt, lb, k) == Map::<usize, AttrsView>::empty(),
    decreases k,
{
    if k > 0 {
        lemma_span_starts(spans, k - 1, k);
        lemma_line_points_none_before(spans, dflt, lb, k - 1);
    }
}

/// Spans from `k` on that start at or after the line's end add nothing to it.
proof fn lemma_line_points_none_after(spans: Seq<(Seq<char>, AttrsView)>, dflt: AttrsView, lb: (int, int), k: int, m: int)
    requires
        0 <= k <= m <= spans.len(),
        span_start(spans, k) >= lb.1,
    ensures
        line_points(spans, dflt, lb, m) == line_points(spans, dflt, lb, k),
    decreases m - k,
{
    if m > k {
        lemma_span_starts(spans, k, m - 1);
        lemma_line_points_none_after(spans, dflt, lb, k, m - 1);
    }
}

/// Where the merge stands within a line: a span is current and starts no later than
/// the line's end; the line's text so far runs from its start up to the current span;
/// its attributes are those of the spans before the current one.
pub open spec fn merge_state(
    sv: Seq<(Seq<char>, AttrsView)>,
    dflt: AttrsView,
    t: Seq<char>,
    r: (int, int),
    si: int,
    text: Seq<char>,
    defaults: AttrsView,
    points: Map<usize, AttrsView>,
) -> bool {
    &&& 0 <= si < sv.len()
    &&& span_char(sv, si) <= r.0 + paragraph_text(t, r).len()
    &&& text == t.subrange(r.0, max_int(r.0, span_char(sv, si)))
    &&& defaults == dflt
    &&& points == line_points(sv, dflt, paragraph_bytes(t, r), si)
}

/// The bytes of the merge step: the line's and the span's bounds as bytes before
/// characters, and their overlap.
proof fn lemma_step_bounds(sv: Seq<(Seq<char>, AttrsView)>, t: Seq<char>, r: (int, int), si: int, ls: int, le: int, ss: int, se: int)
    requires
        t == rich_string(sv),
        0 <= r.0 < r.1 <= t.len(),
        0 <= si < sv.len(),
        byte_len(t) <= usize::MAX,
        ls == paragraph_bytes(t, r).0 as usize,
        le == paragraph_bytes(t, r).1 as usize,
        ss == span_start(sv, si),
        se == span_start(sv, si + 1),
    ensures
        ({
            let a = r.0;
            let bp = a + paragraph_text(t, r).len();
            let cs = span_char(sv, si);
            let ce = span_char(sv, si + 1);
            &&& 0 <= a <= bp <= t.len()
            &&& 0 <= cs <= ce <= t.len()
            &&& ls == byte_len(t.take(a))
            &&& le == byte_len(t.take(bp))
            &&& ss == byte_len(t.take(cs))
            &&& se == byte_len(t.take(ce))
            &&& max_int(ls, ss) == byte_len(t.take(max_int(a, cs)))
            &&& min_int(le, se) == byte_len(t.take(min_int(bp, ce)))
            &&& (max_int(ls, ss) < min_int(le, se) <==> max_int(a, cs) < min_int(bp, ce))
            &&& (se < le <==> ce < bp)
            &&& si + 1 == sv.len() ==> ce == t.len()
            &&& ls == paragraph_bytes(t, r).0
            &&& le == paragraph_bytes(t, r).1
        }),
{
    let a = r.0;
    let bp = a + paragraph_text(t, r).len();
    let cs = span_char(sv, si);
    let ce = span_char(sv, si + 1);
    lemma_paragraph_text_bytes(t, r);
    lemma_span_starts(sv, si, si + 1);
    lemma_span_starts(sv, si + 1, sv.len() as int);
    lemma_bytes_grow(t, a, t.len() as int);
    lemma_bytes_grow(t, bp, t.len() as int);
    assert(t.take(t.len() as int) =~= t);
    lemma_bytes_grow(t, a, bp);
    lemma_bytes_grow(t, cs, ce);
    lemma_bytes_grow(t, min_int(a, cs), max_int(a, cs));
    lemma_bytes_grow(t, min_int(bp, ce), max_int(bp, ce));
    let x = max_int(a, cs);
    let y = min_int(bp, ce);
    if x <= y {
        lemma_bytes_grow(t, x, y);
    } else {
        lemma_bytes_grow(t, y, x);
    }
}

/// Adds the overlap of the current span to the line: its text, and its attributes
/// where they differ from the defaults.
fn add_overlap(
    string: &str,
    line_string: &mut String,
    attrs_list: &mut AttrsList,
    attrs: Attrs,
    ls: usize,
    start: usize,
    end: usize,
    Ghost(a): Ghost<int>,
    Ghost(start_c): Ghost<int>,
    Ghost(end_c): Ghost<int>,
)
    requires
        0 <= a <= start_c < end_c <= string@.len(),
        ls == byte_len(string@.take(a)),
        start == byte_len(string@.take(start_c)),
        end == byte_len(string@.take(end_c)),
        old(line_string)@ == string@.subrange(a, start_c),
        byte_len(string@) <= usize::MAX,
    ensures
        final(line_string)@ == string@.subrange(a, end_c),
        final(attrs_list).defaults_view() == old(attrs_list).defaults_view(),
        final(attrs_list).spans_view() == if attrs@ != old(attrs_list).defaults_view() {
            assign_range(old(attrs_list).spans_view(), (start - ls) as usize, (end - ls) as usize, attrs@)
        } else {
            old(attrs_list).spans_view()
        },
{
    let ghost t = string@;
    proof {
        lemma_byte_range_cut(t, start_c, end_c);
        lemma_bytes_grow(t, a, start_c);
        lemma_bytes_grow(t, a, end_c);
        lemma_bytes_grow(t, start_c, end_c);
        lemma_bytes_grow(t, end_c, t.len() as int);
        assert(t.take(t.len() as int) =~= t);
    }
    let (_, rest) = split_at_byte(string, start);
    let (piece, _) = split_at_byte(rest, end - start);
    let text_start = text_len(line_string);
    string_push_str(line_string, piece);
    let text_end = text_len(line_string);
    proof {
        assert(t.subrange(a, start_c) + t.subrange(start_c, end_c) =~= t.subrange(a, end_c));
        lemma_split_at_join(t.subrange(a, start_c), t.subrange(start_c, end_c));
    }
    if !attrs_eq(&attrs, &attrs_list.defaults()) {
        attrs_list.add_span(text_start, text_end, attrs);
    }
}

/// The text of the line after adding the current span's overlap.
pub open spec fn step_text(sv: Seq<(Seq<char>, AttrsView)>, t: Seq<char>, r: (int, int), si: int, text: Seq<char>) -> Seq<char> {
    let a = r.0;
    let bp = a + paragraph_text(t, r).len();
    let x = max_int(a, span_char(sv, si));
    let y = min_int(bp, span_char(sv, si + 1));
    if x < y {
        t.subrange(a, y)
    } else {
        text
    }
}

/// One merge step adds the current span's overlap: the text up to the end of the
/// overlap, and the span's attributes over it.
proof fn lemma_step(
    sv: Seq<(Seq<char>, AttrsView)>,
    dflt: AttrsView,
    t: Seq<char>,
    r: (int, int),
    si: int,
    start: int,
    end: int,
    text: Seq<char>,
    points: Map<usize, AttrsView>,
    text2: Seq<char>,
    points2: Map<usize, AttrsView>,
)
    requires
        t == rich_string(sv),
        0 <= r.0 < r.1 <= t.len(),
        byte_len(t) <= usize::MAX,
        merge_state(sv, dflt, t, r, si, text, dflt, points),
        start == max_int(paragraph_bytes(t, r).0, span_start(sv, si)),
        end == min_int(paragraph_bytes(t, r).1, span_start(sv, si + 1)),
        (max_int(paragraph_bytes(t, r).0, span_start(sv, si)) < min_int(paragraph_bytes(t, r).1, span_start(sv, si + 1)))
            <==> max_int(r.0, span_char(sv, si)) < min_int(r.0 + paragraph_text(t, r).len(), span_char(sv, si + 1)),
        start < end ==> text2 == t.subrange(r.0, min_int(r.0 + paragraph_text(t, r).len(), span_char(sv, si + 1))),
        !(start < end) ==> text2 == text,
        start < end ==> points2 == if sv[si].1 != dflt {
            assign_range(points, (start - paragraph_bytes(t, r).0) as usize, (end - paragraph_bytes(t, r).0) as usize, sv[si].1)
        } else {
            points
        },
        !(start < end) ==> points2 == points,
    ensures
        text2 == step_text(sv, t, r, si, text),
        points2 == line_points(sv, dflt, paragraph_bytes(t, r), si + 1),
{
}

/// Moving on to the next span within a line keeps the merge where it stands.
proof fn lemma_span_advance(
    sv: Seq<(Seq<char>, AttrsView)>,
    dflt: AttrsView,
    t: Seq<char>,
    r: (int, int),
    si: int,
    text2: Seq<char>,
    points2: Map<usize, AttrsView>,
)
    requires
        t == rich_string(sv),
        0 <= r.0 < r.1 <= t.len(),
        0 <= si < sv.len(),
        span_char(sv, si) <= r.0 + paragraph_text(t, r).len(),
        span_char(sv, si + 1) < r.0 + paragraph_text(t, r).len(),
        text2 == step_text(sv, t, r, si, t.subrange(r.0, max_int(r.0, span_char(sv, si)))),
        points2 == line_points(sv, dflt, paragraph_bytes(t, r), si + 1),
    ensures
        merge_state(sv, dflt, t, r, si + 1, text2, dflt, points2),
{
    lemma_span_starts(sv, si, si + 1);
    lemma_span_starts(sv, si + 1, sv.len() as int);
    lemma_paragraph_text_bytes(t, r);
}

/// At the end of a line the merge holds the line's text and all its attributes.
proof fn lemma_line_done(
    sv: Seq<(Seq<char>, AttrsView)>,
    dflt: AttrsView,
    t: Seq<char>,
    r: (int, int),
    si: int,
    text2: Seq<char>,
    points2: Map<usize, AttrsView>,
)
    requires
        t == rich_string(sv),
        0 <= r.0 < r.1 <= t.len(),
        0 <= si < sv.len(),
        span_char(sv, si) <= r.0 + paragraph_text(t, r).len(),
        span_char(sv, si + 1) >= r.0 + paragraph_text(t, r).len(),
        text2 == step_text(sv, t, r, si, t.subrange(r.0, max_int(r.0, span_char(sv, si)))),
        points2 == line_points(sv, dflt, paragraph_bytes(t, r), si + 1),
    ensures
        text2 == paragraph_text(t, r),
        points2 == line_points(sv, dflt, paragraph_bytes(t, r), sv.len() as int),
{
    lemma_paragraph_text_bytes(t, r);
    lemma_span_starts(sv, si + 1, sv.len() as int);
    let bp = r.0 + paragraph_text(t, r).len();
    lemma_bytes_grow(t, bp, span_char(sv, si + 1));
    assert(span_start(sv, si + 1) >= paragraph_bytes(t, r).1);
    lemma_line_points_none_after(sv, dflt, paragraph_bytes(t, r), si + 1, sv.len() as int);
}

/// A new line starts the merge afresh at the current span.
proof fn lemma_next_line(
    sv: Seq<(Seq<char>, AttrsView)>,
    dflt: AttrsView,
    t: Seq<char>,
    r: (int, int),
    r2: (int, int),
    si: int,
)
    requires
        t == rich_string(sv),
        0 <= r.0 < r.1 <= t.len(),
        0 <= r2.0 < r2.1 <= t.len(),
        r.1 == r2.0,
        0 <= si < sv.len(),
        span_char(sv, si) <= r.0 + paragraph_text(t, r).len(),
    ensures
        merge_state(sv, dflt, t, r2, si, Seq::empty(), dflt, Map::empty()),
{
    lemma_paragraph_text_bytes(t, r);
    lemma_paragraph_text_bytes(t, r2);
    lemma_span_starts(sv, si, sv.len() as int);
    assert(t.subrange(r2.0, r2.0) =~= Seq::<char>::empty());
    lemma_bytes_grow(t, span_char(sv, si), r2.0);
    lemma_line_points_none_before(sv, dflt, paragraph_bytes(t, r2), si);
}

/// Styled spans as values.
pub open spec fn span_views(spans: Seq<(&str, Attrs)>) -> Seq<(Seq<char>, AttrsView)> {
    spans.map_values(|p: (&str, Attrs)| (p.0@, p.1@))
}

/// The line expected for paragraph `j`.
pub open spec fn rich_line(spans: Seq<(Seq<char>, AttrsView)>, dflt: AttrsView, shaping: Shaping, j: int) -> LineView {
    let t = rich_string(spans);
    let r = para_ranges(t)[j];
    new_line_view(
        paragraph_text(t, r),
        LineEnding::Lf,
        dflt,
        line_points(spans, dflt, paragraph_bytes(t, r), spans.len() as int),
        shaping,
    )
}

/// Set the lines from styled spans (pairs of text and attributes): the spans' texts
/// joined and split into paragraphs, one line per paragraph, each with the default
/// attributes and, over the parts that the spans cover, the spans' attributes where
/// they differ from the defaults; a single empty line where the text is empty.
pub fn set_rich_text<'s, 'r>(
    lines: &mut Vec<BufferLine>,
    spans: &Vec<(&'s str, Attrs<'r>)>,
    default_attrs: Attrs<'r>,
    shaping: Shaping,
)
    ensures
        final(lines)@.map_values(|l: BufferLine| l@) == rich_lines(span_views(spans@), default_attrs@, shaping),
{
    let ghost sv = span_views(spans@);
    let ghost dflt = default_attrs@;
    let ghost ts = rich_texts(sv);
    lines.clear();
    let mut string = String::new();
    let mut bounds: Vec<usize> = Vec::new();
    bounds.push(0);
    let mut i: usize = 0;
    proof {
        assert(ts.take(0) =~= Seq::<Seq<char>>::empty());
        assert(string@ =~= concat_texts(ts.take(0)));
    }
    while i < spans.len()
        invariant
            i <= spans@.len(),
            sv == span_views(spans@),
            ts == rich_texts(sv),
            string@ == concat_texts(ts.take(i as int)),
            bounds@.len() == i + 1,
            forall|k: int| 0 <= k <= i ==> #[trigger] bounds@[k] == span_start(sv, k),
        decreases spans@.len() - i,
    {
        string_push_str(&mut string, spans[i].0);
        let n = text_len(&string);
        bounds.push(n);
        proof {
            assert(ts.take(i + 1).drop_last() =~= ts.take(i as int));
            assert(ts.take(i + 1).last() == spans@[i as int].0@);
            assert(bounds@[i + 1] == span_start(sv, i + 1));
        }
        i = i + 1;
    }
    let ghost t = string@;
    let ghost rs = para_ranges(t);
    let ghost n = sv.len() as int;
    proof {
        assert(ts.take(n) =~= ts);
        assert(t == rich_string(sv));
        lemma_para_ranges_chain(t, 0, 0);
    }
    let text_bytes = string.as_str().as_bytes().len();
    let mut paras = BidiParagraphs::new(string.as_str());
    let mut line_ranges: Vec<(usize, usize)> = Vec::new();
    let mut more = true;
    while more
        invariant
            paras.wf(),
            paras.text_view() == t,
            rs == para_ranges(t),
            line_ranges@.len() == paras.done(),
            forall|j: int| 0 <= j < paras.done() ==> #[trigger] line_ranges@[j] == (
                paragraph_bytes(t, rs[j]).0 as usize,
                paragraph_bytes(t, rs[j]).1 as usize,
            ),
            paras.done() <= rs.len(),
            !more ==> paras.done() == rs.len(),
        decreases rs.len() - paras.done() + if more { 1int } else { 0int },
    {
        match paras.next_range() {
            Some(r) => {
                line_ranges.push(r);
            },
            None => {
                more = false;
            },
        }
    }
    let nl = line_ranges.len();
    if nl == 0 {
        let empty = BufferLine::new(String::new(), LineEnding::default(), AttrsList::new(default_attrs), shaping);
        lines.push(empty);
        proof {
            assert(lines@.map_values(|l: BufferLine| l@) =~= rich_lines(sv, dflt, shaping));
        }
        return;
    }
    let nspans = spans.len();
    let mut li: usize = 0;
    let mut si: usize = 0;
    let mut attrs_list = AttrsList::new(default_attrs);
    let mut line_string = String::new();
    proof {
        assert(rs[0].0 == 0);
        lemma_span_starts(sv, 0, 0);
        lemma_paragraph_text_bytes(t, rs[0]);
        assert(line_string@ =~= t.subrange(0, 0));
        lemma_line_points_none_before(sv, dflt, paragraph_bytes(t, rs[0]), 0);
        if n == 0 {
            lemma_span_starts(sv, 0, n);
        }
    }
    while li < nl
        invariant
            sv == span_views(spans@),
            dflt == default_attrs@,
            t == string@,
            t == rich_string(sv),
            rs == para_ranges(t),
            byte_len(t) <= usize::MAX,
            nl == rs.len(),
            nl > 0,
            line_ranges@.len() == nl,
            n == sv.len(),
            n == spans@.len(),
            nspans == n,
            bounds@.len() == n + 1,
            forall|k: int| 0 <= k <= n ==> #[trigger] bounds@[k] == span_start(sv, k),
            forall|j: int| 0 <= j < nl ==> #[trigger] line_ranges@[j] == (
                paragraph_bytes(t, rs[j]).0 as usize,
                paragraph_bytes(t, rs[j]).1 as usize,
            ),
            rs[0].0 == 0 && rs.last().1 == t.len(),
            forall|j: int| 0 <= j < rs.len() - 1 ==> (#[trigger] rs[j]).1 == rs[j + 1].0,
            forall|j: int| 0 <= j < rs.len() ==> 0 <= (#[trigger] rs[j]).0 < rs[j].1 <= t.len(),
            li <= nl,
            si <= n,
            li < nl ==> merge_state(sv, dflt, t, rs[li as int], si as int, line_string@, attrs_list.defaults_view(), attrs_list.spans_view()),
            lines@.len() == li,
            forall|j: int| 0 <= j < li ==> (#[trigger] lines@[j])@ == rich_line(sv, dflt, shaping, j),
        decreases (nl - li) + (n - si),
    {
        let ghost r = rs[li as int];
        let ghost a = r.0;
        let ghost bp = a + paragraph_text(t, r).len();
        let ghost cs = span_char(sv, si as int);
        let ghost ce = span_char(sv, si + 1);
        let (ls, le) = line_ranges[li];
        let ss = bounds[si];
        let se = bounds[si + 1];
        let attrs = spans[si].1;
        proof {
            assert(line_ranges@[li as int] == (paragraph_bytes(t, r).0 as usize, paragraph_bytes(t, r).1 as usize));
            lemma_step_bounds(sv, t, r, si as int, ls as int, le as int, ss as int, se as int);
            assert(sv[si as int].1 == attrs@);
        }
        let start = if ls < ss {
            ss
        } else {
            ls
        };
        let end = if le < se {
            le
        } else {
            se
        };
        let ghost old_text = line_string@;
        let ghost old_points = attrs_list.spans_view();
        if start < end {
            add_overlap(
                string.as_str(),
                &mut line_string,
                &mut attrs_list,
                attrs,
                ls,
                start,
                end,
                Ghost(a),
                Ghost(max_int(a, cs)),
                Ghost(min_int(bp, ce)),
            );
        }
        proof {
            lemma_step(sv, dflt, t, r, si as int, start as int, end as int, old_text, old_points, line_string@, attrs_list.spans_view());
        }
        if se < le {
            proof {
                lemma_span_advance(sv, dflt, t, r, si as int, line_string@, attrs_list.spans_view());
            }
            si = si + 1;
        } else {
            li = li + 1;
            let mut done_list = AttrsList::new(default_attrs);
            core::mem::swap(&mut done_list, &mut attrs_list);
            let mut done_text = String::new();
            core::mem::swap(&mut done_text, &mut line_string);
            proof {
                lemma_line_done(sv, dflt, t, r, si as int, done_text@, done_list.spans_view());
            }
            lines.push(BufferLine::new(done_text, LineEnding::default(), done_list, shaping));
            proof {
                if li < nl {
                    let r2 = rs[li as int];
                    assert(r.1 == r2.0);
                    lemma_next_line(sv, dflt, t, r, r2, si as int);
                }
            }
        }
    }
    proof {
        assert(lines@.map_values(|l: BufferLine| l@) =~= rich_lines(sv, dflt, shaping));
    }
}

/// Set the lines from one text with the given attributes.
pub fn set_text(lines: &mut Vec<BufferLine>, text: &str, attrs: Attrs, shaping: Shaping)
    ensures
        final(lines)@.map_values(|l: BufferLine| l@) == rich_lines(seq![(text@, attrs@)], attrs@, shaping),
{
    let spans = vec![(text, attrs)];
    proof {
        assert(span_views(spans@) =~= seq![(text@, attrs@)]);
    }
    set_rich_text(lines, &spans, attrs, shaping);
}

} // verus!
