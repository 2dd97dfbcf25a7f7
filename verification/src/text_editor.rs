//! An editor over the lines of a buffer: a cursor, a selection, and the edits that
//! insert and delete text, recorded as reversible changes.

use vstd::prelude::*;

use crate::attrs::{default_attrs, lemma_below_below, points_below, points_shifted_from, Attrs, AttrsList, AttrsView};
use crate::buffer_line::{appended, appended_spans, new_line_view, split_kept, split_rest, BufferLine, LineView};
use crate::edit::{
    Affinity, item_views, reversed_change, reversed_item, spec_selection_bounds, Action, ChangeItemView, Change,
    ChangeItem, Cursor, Selection,
};
use crate::layout::Shaping;
use crate::motion::{
    cursor_motion, directed_motion, directional_motion, is_directional_motion, is_text_motion, line_rtl, spec_motion,
};
use crate::rope_text::LineEnding;
use crate::bidi_para::first_strong_is;
use crate::strings::{
    at_char_boundary, byte_len, byte_prefix, byte_suffix, is_control, is_control_char,
    lemma_boundary_in_first, lemma_byte_len_at_least_len, lemma_byte_len_push, lemma_split_at_boundary, lemma_split_at_join,
    lemma_split_inside_first, split_at_byte, string_pop, string_push, string_push_str, text_len,
    concat_texts, grapheme_indices, grapheme_pieces, is_whitespace, is_whitespace_char, piece_texts,
    pieces_cover, char_len, lemma_byte_len_take,
};

verus! {

/// A document as values: each line's text and ending.
pub open spec fn doc_of(lines: Seq<LineView>) -> Seq<(Seq<char>, LineEnding)> {
    lines.map_values(|l: LineView| (l.text, l.ending))
}

/// Texts joined with a newline between each two.
pub open spec fn join_lines(ts: Seq<Seq<char>>) -> Seq<char>
    decreases ts.len(),
{
    if ts.len() == 0 {
        Seq::empty()
    } else if ts.len() == 1 {
        ts[0]
    } else {
        join_lines(ts.drop_last()) + seq!['\n'] + ts.last()
    }
}

/// The line that ends at `end` after the start line is cut at `si`: the start
/// line's text before `si` followed by the end line's text from `ei` on.
pub open spec fn joined_line(s: LineView, si: int, e: LineView, ei: int) -> LineView {
    let kept = LineView {
        text: byte_prefix(s.text, si),
        ending: LineEnding::NoEnding,
        spans: points_below(s.spans, si as usize),
        metadata: None,
        ..s
    };
    let after = LineView {
        text: byte_suffix(e.text, ei),
        ending: e.ending,
        defaults: e.defaults,
        spans: points_shifted_from(e.spans, ei as usize),
        align: e.align,
        shaping: e.shaping,
        metadata: None,
    };
    LineView {
        text: kept.text + after.text,
        ending: after.ending,
        spans: appended_spans(kept.spans, kept.defaults, si as nat, after),
        metadata: None,
        ..kept
    }
}

/// The lines after deleting from `start` to `end`.
pub open spec fn spec_delete(lines: Seq<LineView>, start: Cursor, end: Cursor) -> Seq<LineView> {
    let s = start.line as int;
    let e = end.line as int;
    if e > s {
        lines.take(s) + seq![joined_line(lines[s], start.index as int, lines[e], end.index as int)]
            + lines.skip(e + 1)
    } else if e == s {
        let cut = LineView { text: byte_prefix(lines[s].text, end.index as int), ..lines[s] };
        lines.update(s, joined_line(cut, start.index as int, lines[s], end.index as int))
    } else {
        lines.update(
            s,
            LineView {
                text: byte_prefix(lines[s].text, start.index as int),
                ending: LineEnding::NoEnding,
                spans: points_below(lines[s].spans, start.index as usize),
                metadata: None,
                ..lines[s]
            },
        )
    }
}

/// The text deleted from `start` to `end`, lines joined by newlines.
pub open spec fn spec_deleted_text(lines: Seq<LineView>, start: Cursor, end: Cursor) -> Seq<char> {
    let s = start.line as int;
    let e = end.line as int;
    if e > s {
        join_lines(
            seq![byte_suffix(lines[s].text, start.index as int)] + lines.subrange(s + 1, e).map_values(
                |l: LineView| l.text,
            ) + seq![byte_prefix(lines[e].text, end.index as int)],
        )
    } else if e == s {
        byte_suffix(byte_prefix(lines[s].text, end.index as int), start.index as int)
    } else {
        byte_suffix(lines[s].text, start.index as int)
    }
}

/// The cursors that `delete_range` accepts: on existing lines, at character
/// boundaries, ordered within one line, with room for the joined line.
pub open spec fn deletable(lines: Seq<LineView>, start: Cursor, end: Cursor) -> bool {
    let s = start.line as int;
    let e = end.line as int;
    &&& s < lines.len()
    &&& at_char_boundary(lines[s].text, start.index as int)
    &&& e > s ==> {
        &&& e < lines.len()
        &&& at_char_boundary(lines[e].text, end.index as int)
        &&& byte_len(lines[s].text) + byte_len(lines[e].text) <= usize::MAX
        &&& forall|k: usize|
            #[trigger] lines[e].spans.contains_key(k) ==> k + byte_len(lines[s].text) < usize::MAX
    }
    &&& e == s ==> {
        &&& start.index <= end.index
        &&& at_char_boundary(lines[s].text, end.index as int)
        &&& forall|k: usize|
            #[trigger] lines[s].spans.contains_key(k) ==> k + byte_len(lines[s].text) < usize::MAX
    }
}

/// The change record after an item is recorded: pushed when changes are being
/// collected.
pub open spec fn recorded(change: Option<Seq<ChangeItemView>>, item: ChangeItemView) -> Option<
    Seq<ChangeItemView>,
> {
    match change {
        Some(items) => Some(items.push(item)),
        None => None,
    }
}

/// The parts of `d` between its newlines (one part more than there are newlines).
pub open spec fn text_segments(d: Seq<char>) -> Seq<Seq<char>>
    decreases d.len(),
{
    if d.len() == 0 {
        seq![Seq::<char>::empty()]
    } else {
        let rest = text_segments(d.drop_last());
        if d.last() == '\n' {
            rest.push(Seq::<char>::empty())
        } else {
            rest.update(rest.len() - 1, rest.last().push(d.last()))
        }
    }
}

/// A text without its last character where that is a control character.
pub open spec fn strip_control_end(t: Seq<char>) -> Seq<char> {
    if t.len() > 0 && is_control_char(t.last()) {
        t.drop_last()
    } else {
        t
    }
}

/// The texts of the lines that inserting `d` between `pre` and `post` makes: the
/// parts of `d` between newlines, the last without a trailing control character,
/// `pre` before the first and `post` after the last.
pub open spec fn inserted_texts(pre: Seq<char>, d: Seq<char>, post: Seq<char>) -> Seq<Seq<char>> {
    let s = text_segments(d);
    let k = s.len() - 1;
    let s1 = s.update(k, strip_control_end(s[k]));
    let s2 = s1.update(0, pre + s1[0]);
    s2.update(k, s2[k] + post)
}

/// The line added when the document is extended to reach a cursor: empty, with the
/// last line's ending and default attributes (the given ones, else the last line's).
pub open spec fn padding_line(lines: Seq<LineView>, defaults: Option<AttrsView>) -> LineView {
    LineView {
        text: Seq::empty(),
        ending: if lines.len() > 0 {
            lines.last().ending
        } else {
            LineEnding::Lf
        },
        defaults: match defaults {
            Some(d) => d,
            None => if lines.len() > 0 {
                lines.last().defaults
            } else {
                default_attrs()
            },
        },
        spans: Map::empty(),
        align: None,
        shaping: Shaping::Advanced,
        metadata: None,
    }
}

/// The defaults of an optional attributes list.
pub open spec fn defaults_of(a: Option<AttrsList>) -> Option<AttrsView> {
    match a {
        Some(l) => Some(l.defaults_view()),
        None => None,
    }
}

/// The lines extended with padding lines until line `line` exists.
pub open spec fn padded(lines: Seq<LineView>, line: int, defaults: Option<AttrsView>) -> Seq<LineView> {
    if line < lines.len() {
        lines
    } else {
        lines + Seq::new((line + 1 - lines.len()) as nat, |i: int| padding_line(lines, defaults))
    }
}

/// The document after inserting non-empty `d` at `at`: the line at the cursor is
/// replaced by the lines of `inserted_texts`, all with that line's ending.
pub open spec fn spec_insert(
    doc: Seq<(Seq<char>, LineEnding)>,
    at: Cursor,
    d: Seq<char>,
) -> Seq<(Seq<char>, LineEnding)> {
    let l = at.line as int;
    let t = doc[l].0;
    let block = inserted_texts(byte_prefix(t, at.index as int), d, byte_suffix(t, at.index as int));
    doc.take(l) + block.map_values(|x: Seq<char>| (x, doc[l].1)) + doc.skip(l + 1)
}

/// The cursor after inserting non-empty `d` at `at`: on the last inserted line, just
/// after the inserted text.
pub open spec fn spec_insert_cursor(doc: Seq<(Seq<char>, LineEnding)>, at: Cursor, d: Seq<char>) -> Cursor {
    let l = at.line as int;
    let t = doc[l].0;
    let block = inserted_texts(byte_prefix(t, at.index as int), d, byte_suffix(t, at.index as int));
    let k = block.len() - 1;
    Cursor {
        line: (l + k) as usize,
        index: (byte_len(block[k]) - byte_len(byte_suffix(t, at.index as int))) as usize,
        affinity: at.affinity,
    }
}

/// An attributes list as its defaults and spans.
pub open spec fn given_attrs(a: Option<AttrsList>) -> Option<(AttrsView, Map<usize, AttrsView>)> {
    match a {
        Some(l) => Some((l.defaults_view(), l.spans_view())),
        None => None,
    }
}

/// The attributes inserted text gets: the given defaults and spans, else the
/// attributes of the character before the cursor (at the start of the line, of the
/// first character), with no spans.
pub open spec fn insert_attrs(
    kept: LineView,
    index: int,
    given: Option<(AttrsView, Map<usize, AttrsView>)>,
) -> (AttrsView, Map<usize, AttrsView>) {
    match given {
        Some(g) => g,
        None => {
            let i = (if index > 0 {
                index - 1
            } else {
                0
            }) as usize;
            (
                if kept.spans.contains_key(i) {
                    kept.spans[i]
                } else {
                    kept.defaults
                },
                Map::empty(),
            )
        },
    }
}

/// The lines that take the place of `line` when `d` is inserted at byte `index` of
/// it. Each part of `d` gets the inserted attributes' defaults and the slice of their
/// spans that covers the part (newline included); the first line keeps the line's
/// text before `index` and the last the text from `index` on.
pub open spec fn insert_block(
    line: LineView,
    index: int,
    d: Seq<char>,
    given: Option<(AttrsView, Map<usize, AttrsView>)>,
) -> Seq<LineView> {
    let kept = split_kept(line, index);
    let after = split_rest(line, index);
    let fd = insert_attrs(kept, index, given).0;
    let fs = insert_attrs(kept, index, given).1;
    let e = line.ending;
    let sv = text_segments(d);
    let k = sv.len() - 1;
    let p0 = if k == 0 {
        byte_len(sv[0])
    } else {
        byte_len(sv[0]) + 1
    };
    let r = points_shifted_from(fs, p0 as usize);
    let first_piece = new_line_view(
        if k == 0 {
            strip_control_end(sv[0])
        } else {
            sv[0]
        },
        e,
        fd,
        points_below(fs, p0 as usize),
        Shaping::Advanced,
    );
    Seq::new(
        (k + 1) as nat,
        |j: int|
            if j == 0 {
                if k == 0 {
                    appended(appended(kept, first_piece), after)
                } else {
                    appended(kept, first_piece)
                }
            } else if j == k {
                appended(
                    new_line_view(
                        strip_control_end(sv[k]),
                        e,
                        fd,
                        points_shifted_from(r, lines_len(sv, 1, k) as usize),
                        Shaping::Advanced,
                    ),
                    after,
                )
            } else {
                new_line_view(
                    sv[j],
                    e,
                    fd,
                    points_shifted_from(
                        points_below(r, lines_len(sv, 1, j + 1) as usize),
                        lines_len(sv, 1, j) as usize,
                    ),
                    Shaping::Advanced,
                )
            },
    )
}

/// The cursors and texts that `insert_at` accepts: at a character boundary of an
/// existing line (or at the start of a line past the end), with room for the line
/// to grow by the inserted text.
pub open spec fn insertable(lines: Seq<LineView>, at: Cursor, d: Seq<char>) -> bool {
    let l = at.line as int;
    if l < lines.len() {
        &&& at_char_boundary(lines[l].text, at.index as int)
        &&& byte_len(lines[l].text) + byte_len(d) <= usize::MAX
        &&& forall|k: usize| #[trigger] lines[l].spans.contains_key(k) ==> k + byte_len(d) < usize::MAX
    } else {
        at.index == 0
    }
}

/// The document after deleting from `start` to `end`: the text between them goes,
/// and the start line takes the end line's ending.
pub open spec fn doc_delete(
    doc: Seq<(Seq<char>, LineEnding)>,
    start: Cursor,
    end: Cursor,
) -> Seq<(Seq<char>, LineEnding)> {
    let s = start.line as int;
    let e = end.line as int;
    let ts = doc[s].0;
    if e > s {
        doc.take(s) + seq![
            (byte_prefix(ts, start.index as int) + byte_suffix(doc[e].0, end.index as int), doc[e].1),
        ] + doc.skip(e + 1)
    } else if e == s {
        doc.update(
            s,
            (
                byte_prefix(byte_prefix(ts, end.index as int), start.index as int) + byte_suffix(
                    ts,
                    end.index as int,
                ),
                doc[s].1,
            ),
        )
    } else {
        doc.update(s, (byte_prefix(ts, start.index as int), LineEnding::NoEnding))
    }
}

/// The text deleted from `start` to `end`, lines joined by newlines.
pub open spec fn doc_deleted_text(doc: Seq<(Seq<char>, LineEnding)>, start: Cursor, end: Cursor) -> Seq<char> {
    let s = start.line as int;
    let e = end.line as int;
    if e > s {
        join_lines(
            seq![byte_suffix(doc[s].0, start.index as int)] + doc.subrange(s + 1, e).map_values(
                |x: (Seq<char>, LineEnding)| x.0,
            ) + seq![byte_prefix(doc[e].0, end.index as int)],
        )
    } else if e == s {
        byte_suffix(byte_prefix(doc[s].0, end.index as int), start.index as int)
    } else {
        byte_suffix(doc[s].0, start.index as int)
    }
}

/// Deleting lines and deleting their texts and endings agree.
pub proof fn lemma_delete_doc(lines: Seq<LineView>, start: Cursor, end: Cursor)
    requires
        (start.line as int) < lines.len(),
        end.line > start.line ==> (end.line as int) < lines.len(),
    ensures
        doc_of(spec_delete(lines, start, end)) == doc_delete(doc_of(lines), start, end),
        spec_deleted_text(lines, start, end) == doc_deleted_text(doc_of(lines), start, end),
{
    let s = start.line as int;
    let e = end.line as int;
    let doc = doc_of(lines);
    assert(doc[s] == (lines[s].text, lines[s].ending));
    if e > s {
        assert(doc[e] == (lines[e].text, lines[e].ending));
        assert(doc_of(spec_delete(lines, start, end)) =~= doc_delete(doc, start, end));
        assert(lines.subrange(s + 1, e).map_values(|l: LineView| l.text) =~= doc.subrange(s + 1, e).map_values(
            |x: (Seq<char>, LineEnding)| x.0,
        ));
    } else {
        assert(doc_of(spec_delete(lines, start, end)) =~= doc_delete(doc, start, end));
    }
}

/// The last part of a text ends with the text's last character, unless that is a
/// newline, after which the last part is empty.
proof fn lemma_last_segment(d: Seq<char>)
    requires
        d.len() > 0,
    ensures
        d.last() == '\n' ==> text_segments(d).last().len() == 0,
        d.last() != '\n' ==> text_segments(d).last().len() > 0 && text_segments(d).last().last()
            == d.last(),
{
    lemma_segments_nonempty(d.drop_last());
}

/// Deleting from where text was inserted to the cursor the insertion returned gives
/// the document back, and deletes exactly the inserted text, unless the text ends
/// with a control character other than a newline, which insertion drops.
pub proof fn lemma_insert_then_delete(doc: Seq<(Seq<char>, LineEnding)>, at: Cursor, d: Seq<char>)
    requires
        (at.line as int) < doc.len(),
        at_char_boundary(doc[at.line as int].0, at.index as int),
        byte_len(doc[at.line as int].0) + byte_len(d) <= usize::MAX,
        spec_insert(doc, at, d).len() <= usize::MAX,
        d.len() > 0,
        d.last() == '\n' || !is_control_char(d.last()),
    ensures
        at_char_boundary(spec_insert(doc, at, d)[at.line as int].0, at.index as int),
        (spec_insert_cursor(doc, at, d).line as int) < spec_insert(doc, at, d).len(),
        at_char_boundary(
            spec_insert(doc, at, d)[spec_insert_cursor(doc, at, d).line as int].0,
            spec_insert_cursor(doc, at, d).index as int,
        ),
        spec_insert_cursor(doc, at, d).line == at.line ==> at.index <= spec_insert_cursor(doc, at, d).index,
        spec_insert_cursor(doc, at, d).line >= at.line,
        doc_delete(spec_insert(doc, at, d), at, spec_insert_cursor(doc, at, d)) == doc,
        doc_deleted_text(spec_insert(doc, at, d), at, spec_insert_cursor(doc, at, d)) == d,
{
    let l = at.line as int;
    let i = at.index as int;
    let t = doc[l].0;
    let e = doc[l].1;
    lemma_split_at_boundary(t, i);
    let pre = byte_prefix(t, i);
    let post = byte_suffix(t, i);
    let sv = text_segments(d);
    lemma_segments_join(d);
    lemma_last_segment(d);
    let k = sv.len() - 1;
    assert(strip_control_end(sv[k]) == sv[k]);
    let texts = inserted_texts(pre, d, post);
    let doc1 = spec_insert(doc, at, d);
    let c = spec_insert_cursor(doc, at, d);
    let block = texts.map_values(|x: Seq<char>| (x, e));
    assert(doc1 == doc.take(l) + block + doc.skip(l + 1));
    assert(doc1[l] == (texts[0], e));
    assert(doc1[l + k] == (texts[k], e));
    assert(doc1.take(l) =~= doc.take(l));
    assert(doc1.skip(l + k + 1) =~= doc.skip(l + 1));
    lemma_join_len(sv);
    lemma_lines_len_split(sv, 0, k, k);
    if k == 0 {
        assert(sv[0] == d);
        assert(texts[0] == pre + d + post);
        lemma_split_at_join(pre + d, post);
        lemma_split_at_join(pre, d);
        assert(byte_len(pre + d) <= usize::MAX);
        assert(c.line == at.line);
        assert(c.index == byte_len(pre + d));
        let t1 = byte_prefix(byte_prefix(texts[0], c.index as int), i) + byte_suffix(texts[0], c.index as int);
        assert(t1 == pre + post);
        assert(doc_delete(doc1, at, c) =~= doc);
        lemma_split_at_join(pre, d + post);
        assert(pre + d + post =~= pre + (d + post));
    } else {
        assert(texts[0] == pre + sv[0]);
        assert(texts[k] == sv[k] + post);
        lemma_split_at_join(pre, sv[0]);
        lemma_split_at_join(sv[k], post);
        lemma_lines_len_split(sv, 0, 1, k);
        assert(lines_len(sv, 0, 1) == byte_len(sv[0]) + 1) by {
            assert(lines_len(sv, 0, 0) == 0);
        }
        assert(c.line == at.line + k);
        assert(c.index == byte_len(sv[k]));
        let t1 = byte_prefix(texts[0], i) + byte_suffix(texts[k], c.index as int);
        assert(t1 == pre + post);
        assert(doc_delete(doc1, at, c) =~= doc);
        assert(doc1.subrange(l + 1, l + k).map_values(|x: (Seq<char>, LineEnding)| x.0) =~= sv.subrange(1, k));
        assert(seq![sv[0]] + sv.subrange(1, k) + seq![sv[k]] =~= sv);
    }
}

/// The items before an applicable item are applicable, and that item applies to
/// what they leave.
proof fn lemma_applicable_prefix(lines: Seq<LineView>, cursor: Cursor, items: Seq<ChangeItemView>, n: int)
    requires
        items_applicable(lines, cursor, items),
        0 < n <= items.len(),
    ensures
        items_applicable(lines, cursor, items.take(n)),
        ({
            let prev = apply_items(lines, cursor, items.take(n - 1));
            let it = items[n - 1];
            if it.insert {
                insertable(prev.0, it.start, it.text)
            } else {
                deletable(prev.0, it.start, it.end)
            }
        }),
    decreases items.len(),
{
    if n < items.len() {
        assert(items.drop_last().take(n) =~= items.take(n));
        assert(items.drop_last().take(n - 1) =~= items.take(n - 1));
        lemma_applicable_prefix(lines, cursor, items.drop_last(), n);
    } else {
        assert(items.take(n) =~= items);
        assert(items.take(n - 1) =~= items.drop_last());
    }
}

/// Undoing an insertion: applying the reverse of the change that recorded it gives
/// the lines' texts and endings back and puts the cursor where the text went in
/// (text ending in a control character other than a newline loses it on insertion,
/// so is left out).
pub proof fn lemma_undo_insert(lines: Seq<LineView>, at: Cursor, d: Seq<char>)
    requires
        (at.line as int) < lines.len(),
        insertable(lines, at, d),
        d.len() > 0,
        d.last() == '\n' || !is_control_char(d.last()),
        apply_insert(lines, at, d).0.len() <= usize::MAX,
    ensures
        ({
            let done = apply_insert(lines, at, d);
            let undo = reversed_change(seq![ChangeItemView { start: at, end: done.1, text: d, insert: true }]);
            &&& doc_of(apply_items(done.0, done.1, undo).0) == doc_of(lines)
            &&& apply_items(done.0, done.1, undo).1 == at
        }),
{
    let l = at.line as int;
    let doc = doc_of(lines);
    let done = apply_insert(lines, at, d);
    assert(padded(lines, l, None) == lines);
    let blk = insert_block(lines[l], at.index as int, d, None);
    lemma_block_texts(lines[l], at.index as int, d, None);
    lemma_split_at_boundary(lines[l].text, at.index as int);
    let sv = text_segments(d);
    let k = sv.len() - 1;
    lemma_segments_join(d);
    lemma_join_len(sv);
    lemma_lines_len_split(sv, 0, k, k);
    lemma_strip_len(sv[k]);
    lemma_strip_len(sv[0]);
    let pre = byte_prefix(lines[l].text, at.index as int);
    let post = byte_suffix(lines[l].text, at.index as int);
    assert(blk.last() == blk[k]);
    if k == 0 {
        lemma_split_at_join(pre, strip_control_end(sv[0]));
        lemma_split_at_join(pre + strip_control_end(sv[0]), post);
    } else {
        lemma_split_at_join(strip_control_end(sv[k]), post);
        assert(lines_len(sv, 0, k) >= byte_len(sv[0])) by {
            lemma_lines_len_split(sv, 0, 1, k);
            assert(lines_len(sv, 0, 0) == 0);
        }
    }
    lemma_insert_block(lines, at, d, blk, done.0);
    lemma_insert_then_delete(doc, at, d);
    let it = ChangeItemView { start: at, end: done.1, text: d, insert: true };
    let undo = reversed_change(seq![it]);
    assert(undo.len() == 1);
    assert(undo.drop_last() =~= Seq::<ChangeItemView>::empty());
    assert(undo.last() == reversed_item(it));
    assert(apply_items(done.0, done.1, undo.drop_last()) == (done.0, done.1));
    assert(apply_items(done.0, done.1, undo) == (spec_delete(done.0, at, done.1), at));
    assert(doc_of(done.0) == spec_insert(doc, at, d));
    assert(done.1 == spec_insert_cursor(doc, at, d));
    lemma_delete_doc(done.0, at, done.1);
}

/// Deleting from where text was inserted to the cursor the insertion returned gives
/// the lines' texts and endings back (text ending in a control character other than
/// a newline loses it on insertion, so is left out).
pub proof fn lemma_insert_then_delete_lines(lines: Seq<LineView>, at: Cursor, d: Seq<char>)
    requires
        (at.line as int) < lines.len(),
        insertable(lines, at, d),
        d.len() > 0,
        d.last() == '\n' || !is_control_char(d.last()),
        apply_insert(lines, at, d).0.len() <= usize::MAX,
    ensures
        ({
            let done = apply_insert(lines, at, d);
            doc_of(spec_delete(done.0, at, done.1)) == doc_of(lines)
        }),
{
    lemma_undo_insert(lines, at, d);
    let done = apply_insert(lines, at, d);
    let it = ChangeItemView { start: at, end: done.1, text: d, insert: true };
    let undo = reversed_change(seq![it]);
    assert(undo.len() == 1);
    assert(undo.drop_last() =~= Seq::<ChangeItemView>::empty());
    assert(undo.last() == reversed_item(it));
    assert(apply_items(done.0, done.1, undo.drop_last()) == (done.0, done.1));
}

proof fn lemma_leading_whitespace_len(t: Seq<char>)
    ensures
        leading_whitespace(t).len() <= t.len(),
        forall|i: int| 0 <= i < leading_whitespace(t).len() ==> #[trigger] leading_whitespace(t)[i] == t[i],
    decreases t.len(),
{
    if t.len() > 0 && is_whitespace_char(t[0]) {
        lemma_leading_whitespace_len(t.drop_first());
        assert forall|i: int| 0 <= i < leading_whitespace(t).len() implies #[trigger] leading_whitespace(t)[i] == t[i] by {
            if i > 0 {
                assert(leading_whitespace(t)[i] == leading_whitespace(t.drop_first())[i - 1]);
            }
        }
    }
}

/// One more whitespace character at the front is one more of the leading whitespace.
proof fn lemma_leading_whitespace_step(t: Seq<char>, k: int)
    requires
        0 <= k < t.len(),
        t.take(k) == leading_whitespace(t).take(k),
        k <= leading_whitespace(t).len(),
        is_whitespace_char(t[k]),
    ensures
        k + 1 <= leading_whitespace(t).len(),
        t.take(k + 1) == leading_whitespace(t).take(k + 1),
    decreases k,
{
    lemma_leading_whitespace_len(t);
    if k == 0 {
        assert(leading_whitespace(t).len() >= 1);
        assert(t.take(1) =~= leading_whitespace(t).take(1));
    } else {
        // t[0] is whitespace, so the leading whitespace is t[0] then that of the rest
        assert(t.take(k)[0] == t[0]);
        assert(leading_whitespace(t).take(k)[0] == leading_whitespace(t)[0]);
        assert(is_whitespace_char(t[0])) by {
            if !is_whitespace_char(t[0]) {
                assert(leading_whitespace(t).len() == 0);
            }
        }
        let r = t.drop_first();
        assert(leading_whitespace(t) == seq![t[0]] + leading_whitespace(r));
        assert(r.take(k - 1) =~= leading_whitespace(r).take(k - 1)) by {
            assert forall|i: int| 0 <= i < k - 1 implies #[trigger] r.take(k - 1)[i] == leading_whitespace(r).take(k - 1)[i] by {
                assert(t.take(k)[i + 1] == leading_whitespace(t).take(k)[i + 1]);
                assert(t.take(k)[i + 1] == t[i + 1]);
                assert(leading_whitespace(t)[i + 1] == leading_whitespace(r)[i]);
            }
        }
        lemma_leading_whitespace_step(r, k - 1);
        assert(t.take(k + 1) =~= leading_whitespace(t).take(k + 1)) by {
            assert forall|i: int| 0 <= i < k + 1 implies #[trigger] t.take(k + 1)[i] == leading_whitespace(t).take(k + 1)[i] by {
                if i > 0 {
                    assert(r.take(k)[i - 1] == leading_whitespace(r).take(k)[i - 1]);
                }
            }
        }
    }
}

/// A character that is not whitespace ends the leading whitespace.
proof fn lemma_leading_whitespace_stop(t: Seq<char>, k: int)
    requires
        0 <= k < t.len(),
        t.take(k) == leading_whitespace(t).take(k),
        k <= leading_whitespace(t).len(),
        !is_whitespace_char(t[k]),
    ensures
        leading_whitespace(t) == t.take(k),
    decreases k,
{
    lemma_leading_whitespace_len(t);
    if k == 0 {
        assert(leading_whitespace(t) =~= t.take(0));
    } else {
        assert(t.take(k)[0] == t[0]);
        assert(is_whitespace_char(t[0])) by {
            if !is_whitespace_char(t[0]) {
                assert(leading_whitespace(t).len() == 0);
            }
        }
        let r = t.drop_first();
        assert(leading_whitespace(t) == seq![t[0]] + leading_whitespace(r));
        assert(r.take(k - 1) =~= leading_whitespace(r).take(k - 1)) by {
            assert forall|i: int| 0 <= i < k - 1 implies #[trigger] r.take(k - 1)[i] == leading_whitespace(r).take(k - 1)[i] by {
                assert(t.take(k)[i + 1] == leading_whitespace(t).take(k)[i + 1]);
                assert(t.take(k)[i + 1] == t[i + 1]);
                assert(leading_whitespace(t)[i + 1] == leading_whitespace(r)[i]);
            }
        }
        lemma_leading_whitespace_stop(r, k - 1);
        assert(leading_whitespace(t) =~= t.take(k));
    }
}

/// The loop that stops at the first cluster starting after `index` finds the cluster
/// `grapheme_at` names.
proof fn lemma_grapheme_at(ps: Seq<(usize, Seq<char>)>, index: usize, i: int)
    requires
        0 <= i <= ps.len(),
        forall|j: int| 0 <= j < i ==> (#[trigger] ps[j]).0 <= index,
        i < ps.len() ==> ps[i].0 > index,
    ensures
        grapheme_at(ps, index) == if i > 0 {
            Some(ps[i - 1])
        } else {
            None::<(usize, Seq<char>)>
        },
    decreases ps.len(),
{
    if i > 0 {
        let r = ps.drop_first();
        assert forall|j: int| 0 <= j < i - 1 implies (#[trigger] r[j]).0 <= index by {
            assert(r[j] == ps[j + 1]);
        }
        if i - 1 < r.len() {
            assert(r[i - 1] == ps[i]);
        }
        lemma_grapheme_at(r, index, i - 1);
        if i > 1 {
            assert(r[i - 2] == ps[i - 1]);
        }
    }
}

/// Texts one after the other split around one of them.
proof fn lemma_concat_split(ps: Seq<Seq<char>>, j: int)
    requires
        0 <= j < ps.len(),
    ensures
        concat_texts(ps) == concat_texts(ps.take(j)) + ps[j] + concat_texts(ps.skip(j + 1)),
        concat_texts(ps.take(j + 1)) == concat_texts(ps.take(j)) + ps[j],
    decreases ps.len(),
{
    assert(ps.take(j + 1).drop_last() =~= ps.take(j));
    if j == ps.len() - 1 {
        assert(ps.drop_last() =~= ps.take(j));
        assert(ps.skip(j + 1) =~= Seq::<Seq<char>>::empty());
        assert(concat_texts(ps) =~= concat_texts(ps.take(j)) + ps[j] + concat_texts(ps.skip(j + 1)));
    } else {
        lemma_concat_split(ps.drop_last(), j);
        assert(ps.drop_last().take(j) =~= ps.take(j));
        assert(ps.drop_last().skip(j + 1) =~= ps.skip(j + 1).drop_last());
        assert(ps.skip(j + 1).last() == ps.last());
        assert(concat_texts(ps) =~= concat_texts(ps.take(j)) + ps[j] + concat_texts(ps.skip(j + 1)));
    }
}

/// A grapheme cluster starts and ends at character boundaries within the text.
pub(crate) proof fn lemma_grapheme_bounds(ps: Seq<(usize, Seq<char>)>, text: Seq<char>, j: int)
    requires
        pieces_cover(ps, text),
        0 <= j < ps.len(),
    ensures
        at_char_boundary(text, ps[j].0 as int),
        at_char_boundary(text, ps[j].0 + byte_len(ps[j].1)),
        ps[j].0 < ps[j].0 + byte_len(ps[j].1) <= byte_len(text),
{
    let texts = piece_texts(ps);
    assert(texts[j] == ps[j].1);
    lemma_concat_split(texts, j);
    let a = concat_texts(texts.take(j));
    let g = ps[j].1;
    let rest = concat_texts(texts.skip(j + 1));
    assert(text == a + g + rest);
    assert(a + g + rest =~= a + (g + rest));
    lemma_split_at_join(a, g + rest);
    lemma_split_at_join(a + g, rest);
    lemma_split_at_join(a, g);
    lemma_byte_len_at_least_len(g);
}

/// Text without a newline added after a text joins its last part.
proof fn lemma_segments_append_plain(a: Seq<char>, b: Seq<char>)
    requires
        forall|i: int| 0 <= i < b.len() ==> b[i] != '\n',
    ensures
        text_segments(a + b) == text_segments(a).update(
            text_segments(a).len() - 1,
            text_segments(a).last() + b,
        ),
    decreases b.len(),
{
    lemma_segments_nonempty(a);
    if b.len() == 0 {
        assert(a + b =~= a);
        assert(text_segments(a).last() + b =~= text_segments(a).last());
        assert(text_segments(a).update(text_segments(a).len() - 1, text_segments(a).last() + b) =~= text_segments(a));
    } else {
        let b0 = b.drop_last();
        lemma_segments_append_plain(a, b0);
        assert((a + b).drop_last() =~= a + b0);
        assert((a + b).last() == b.last());
        assert(text_segments(a).last() + b =~= (text_segments(a).last() + b0).push(b.last()));
        assert(text_segments(a + b) =~= text_segments(a).update(
            text_segments(a).len() - 1,
            text_segments(a).last() + b,
        ));
    }
}

/// The parts between the newlines of texts joined by newlines are those texts, when
/// none of them holds a newline.
pub proof fn lemma_segments_of_join(parts: Seq<Seq<char>>)
    requires
        parts.len() >= 1,
        forall|j: int, i: int| 0 <= j < parts.len() && 0 <= i < parts[j].len() ==> #[trigger] parts[j][i] != '\n',
    ensures
        text_segments(join_lines(parts)) == parts,
    decreases parts.len(),
{
    if parts.len() == 1 {
        lemma_segments_append_plain(Seq::<char>::empty(), parts[0]);
        assert(Seq::<char>::empty() + parts[0] =~= parts[0]);
        assert(Seq::<char>::empty() + parts[0] =~= parts[0]);
        assert(text_segments(Seq::<char>::empty()) =~= seq![Seq::<char>::empty()]);
        assert(text_segments(parts[0]) =~= parts);
    } else {
        let head = parts.drop_last();
        lemma_segments_of_join(head);
        let x = join_lines(head) + seq!['\n'];
        assert(x.drop_last() =~= join_lines(head));
        assert(x.last() == '\n');
        lemma_segments_append_plain(x, parts.last());
        assert(text_segments(x) =~= head.push(Seq::<char>::empty()));
        assert(Seq::<char>::empty() + parts.last() =~= parts.last());
        assert(text_segments(join_lines(parts)) =~= parts);
    }
}

/// Inserting the text a deletion removed, where it was removed from, gives the lines'
/// texts back, when none of the affected lines holds a newline and the removed text
/// does not end with a control character other than a newline (which insertion
/// drops).
pub proof fn lemma_delete_then_insert(doc: Seq<(Seq<char>, LineEnding)>, start: Cursor, end: Cursor)
    requires
        start.line < end.line || (start.line == end.line && start.index < end.index),
        (end.line as int) < doc.len(),
        at_char_boundary(doc[start.line as int].0, start.index as int),
        at_char_boundary(doc[end.line as int].0, end.index as int),
        forall|j: int, i: int| start.line <= j <= end.line && 0 <= i < doc[j].0.len() ==> #[trigger] doc[j].0[i] != '\n',
        ({
            let d = doc_deleted_text(doc, start, end);
            d.last() == '\n' || !is_control_char(d.last())
        }),
    ensures
        ({
            let d = doc_deleted_text(doc, start, end);
            let back = spec_insert(doc_delete(doc, start, end), start, d);
            &&& d.len() > 0
            &&& back.map_values(|x: (Seq<char>, LineEnding)| x.0) == doc.map_values(|x: (Seq<char>, LineEnding)| x.0)
        }),
{
    let s = start.line as int;
    let e = end.line as int;
    let si = start.index as int;
    let ei = end.index as int;
    let ts = doc[s].0;
    let te = doc[e].0;
    let d = doc_deleted_text(doc, start, end);
    let doc1 = doc_delete(doc, start, end);
    lemma_split_at_boundary(ts, si);
    lemma_split_at_boundary(te, ei);
    if s == e {
        let upto = byte_prefix(ts, ei);
        let mid = byte_suffix(upto, si);
        lemma_boundary_in_first(upto, byte_suffix(ts, ei), si);
        lemma_split_at_boundary(upto, si);
        let pre = byte_prefix(upto, si);
        assert(d == mid);
        assert(mid.len() > 0) by {
            if mid.len() == 0 {
                assert(mid =~= Seq::<char>::empty());
                assert(byte_len(mid) == 0);
            }
        }
        assert forall|i: int| 0 <= i < mid.len() implies mid[i] != '\n' by {
            assert(upto[pre.len() + i] == mid[i]) by {
                assert(upto =~= pre + mid);
            }
            assert(ts[pre.len() + i] == upto[pre.len() + i]) by {
                assert(ts =~= upto + byte_suffix(ts, ei));
            }
        }
        lemma_segments_of_join(seq![mid]);
        let t1 = pre + byte_suffix(ts, ei);
        assert(doc1[s].0 == t1);
        lemma_split_at_join(pre, byte_suffix(ts, ei));
        let back = spec_insert(doc1, start, d);
        assert(text_segments(d) =~= seq![mid]);
        assert(strip_control_end(mid) == mid);
        assert(back[s].0 == pre + mid + byte_suffix(ts, ei));
        assert(pre + mid + byte_suffix(ts, ei) =~= ts) by {
            assert(upto =~= pre + mid);
        }
        assert(back.map_values(|x: (Seq<char>, LineEnding)| x.0) =~= doc.map_values(|x: (Seq<char>, LineEnding)| x.0));
    } else {
        let pre = byte_prefix(ts, si);
        let post = byte_suffix(te, ei);
        let first = byte_suffix(ts, si);
        let last = byte_prefix(te, ei);
        let mids = doc.subrange(s + 1, e).map_values(|x: (Seq<char>, LineEnding)| x.0);
        let parts = seq![first] + mids + seq![last];
        assert(d == join_lines(parts));
        assert forall|j: int, i: int| 0 <= j < parts.len() && 0 <= i < parts[j].len() implies #[trigger] parts[j][i] != '\n' by {
            if j == 0 {
                assert(ts =~= pre + first);
                assert(ts[pre.len() + i] == first[i]);
            } else if j == parts.len() - 1 {
                assert(te =~= last + post);
                assert(te[i] == last[i]);
            } else {
                assert(parts[j] == doc[s + j].0);
            }
        }
        lemma_segments_of_join(parts);
        lemma_last_segment(d);
        let k = parts.len() - 1;
        assert(strip_control_end(parts[k]) == parts[k]) by {
            if parts[k].len() > 0 {
                lemma_segments_join(d);
            }
        }
        let t1 = pre + post;
        lemma_split_at_join(pre, post);
        assert(doc1[s].0 == t1);
        let back = spec_insert(doc1, start, d);
        assert(back.map_values(|x: (Seq<char>, LineEnding)| x.0) =~= doc.map_values(|x: (Seq<char>, LineEnding)| x.0)) by {
            assert forall|j: int| 0 <= j < doc.len() implies #[trigger] back[j].0 == doc[j].0 by {
                if j == s {
                    assert(ts =~= pre + first);
                } else if j == e {
                    assert(te =~= last + post);
                } else if s < j < e {
                    assert(back[j].0 == parts[j - s]);
                }
            }
        }
    }
}

/// Byte lengths of parts each followed by a newline, from part `a` to part `b`.
pub open spec fn lines_len(s: Seq<Seq<char>>, a: int, b: int) -> nat
    decreases b - a,
{
    if b <= a {
        0
    } else {
        lines_len(s, a, b - 1) + byte_len(s[b - 1]) + 1
    }
}

proof fn lemma_segments_nonempty(d: Seq<char>)
    ensures
        text_segments(d).len() >= 1,
    decreases d.len(),
{
    if d.len() > 0 {
        lemma_segments_nonempty(d.drop_last());
    }
}

/// Joining the parts between newlines with newlines gives the text back, and no part
/// holds a newline.
pub proof fn lemma_segments_join(d: Seq<char>)
    ensures
        join_lines(text_segments(d)) == d,
        text_segments(d).len() >= 1,
        forall|j: int, i: int| 0 <= j < text_segments(d).len() && 0 <= i < text_segments(d)[j].len() ==> #[trigger] text_segments(d)[j][i] != '\n',
    decreases d.len(),
{
    lemma_segments_nonempty(d);
    if d.len() > 0 {
        let d0 = d.drop_last();
        lemma_segments_join(d0);
        let rest = text_segments(d0);
        let s = text_segments(d);
        assert(d =~= d0.push(d.last()));
        if d.last() == '\n' {
            assert(s.drop_last() =~= rest);
            assert(join_lines(s) =~= join_lines(rest) + seq!['\n'] + Seq::<char>::empty());
        } else {
            lemma_join_last(rest, d.last());
            assert forall|j: int, i: int| 0 <= j < s.len() && 0 <= i < s[j].len() implies #[trigger] s[j][i] != '\n' by {
                if j == s.len() - 1 && i == s[j].len() - 1 {
                } else if j == s.len() - 1 {
                    assert(s[j][i] == rest[j][i]);
                } else {
                    assert(s[j] == rest[j]);
                }
            }
        }
    }
}

/// Adding a character to the last part adds it to the joined text.
proof fn lemma_join_last(s: Seq<Seq<char>>, c: char)
    requires
        s.len() >= 1,
    ensures
        join_lines(s.update(s.len() - 1, s.last().push(c))) == join_lines(s).push(c),
{
    let u = s.update(s.len() - 1, s.last().push(c));
    if s.len() == 1 {
    } else {
        assert(u.drop_last() =~= s.drop_last());
        assert(join_lines(u) =~= join_lines(s).push(c));
    }
}

/// The byte length of joined texts: every part but the last is followed by a newline.
proof fn lemma_join_len(s: Seq<Seq<char>>)
    requires
        s.len() >= 1,
    ensures
        byte_len(join_lines(s)) == lines_len(s, 0, s.len() - 1) + byte_len(s.last()),
    decreases s.len(),
{
    if s.len() > 1 {
        let s0 = s.drop_last();
        lemma_join_len(s0);
        lemma_lines_len_prefix(s0, s, 0, s.len() - 1);
        lemma_split_at_join(join_lines(s0) + seq!['\n'], s.last());
        lemma_split_at_join(join_lines(s0), seq!['\n']);
        lemma_newline_len();
    }
}

proof fn lemma_newline_len()
    ensures
        byte_len(seq!['\n']) == 1,
{
    reveal_with_fuel(vstd::utf8::encode_utf8, 2);
    assert(seq!['\n'].drop_first() =~= Seq::<char>::empty());
    assert(seq!['\n'][0] == '\n');
    assert(vstd::utf8::encode_scalar('\n' as u32).len() == 1);
}

/// Lengths of parts depend only on those parts.
proof fn lemma_lines_len_prefix(s: Seq<Seq<char>>, t: Seq<Seq<char>>, a: int, b: int)
    requires
        0 <= a,
        b <= s.len(),
        b <= t.len(),
        forall|j: int| a <= j < b ==> s[j] == t[j],
    ensures
        lines_len(s, a, b) == lines_len(t, a, b),
    decreases b - a,
{
    if b > a {
        lemma_lines_len_prefix(s, t, a, b - 1);
    }
}

/// Lengths of parts add up across a split point.
proof fn lemma_lines_len_split(s: Seq<Seq<char>>, a: int, m: int, b: int)
    requires
        a <= m <= b,
    ensures
        lines_len(s, a, b) == lines_len(s, a, m) + lines_len(s, m, b),
    decreases b - m,
{
    if b > m {
        lemma_lines_len_split(s, a, m, b - 1);
    }
}

/// The byte length of each line.
pub open spec fn line_byte_lens(lines: Seq<LineView>) -> Seq<usize> {
    lines.map_values(|l: LineView| byte_len(l.text) as usize)
}

/// The lines a line selection needs: both ends on existing lines.
pub open spec fn selection_in_lines(lines: Seq<LineView>, cursor: Cursor, selection: Selection) -> bool {
    selection matches Selection::Line(select) ==> (select.line as int) < lines.len() && (
    cursor.line as int) < lines.len()
}

/// The bounds of a selection in an editor's lines.
pub open spec fn editor_bounds(lines: Seq<LineView>, cursor: Cursor, selection: Selection) -> Option<(Cursor, Cursor)> {
    spec_selection_bounds(cursor, selection, line_byte_lens(lines))
}

/// The span from `start` to `end` lies on existing lines, at character boundaries,
/// in order.
pub open spec fn copyable(lines: Seq<LineView>, start: Cursor, end: Cursor) -> bool {
    &&& (start.line as int) < lines.len()
    &&& (end.line as int) < lines.len()
    &&& start.line <= end.line
    &&& at_char_boundary(lines[start.line as int].text, start.index as int)
    &&& at_char_boundary(lines[end.line as int].text, end.index as int)
    &&& start.line == end.line ==> start.index <= end.index
}

/// The lines and cursor after inserting `d` at `at` with the attributes of the text
/// before the cursor, as `insert_at` does.
pub open spec fn apply_insert(lines: Seq<LineView>, at: Cursor, d: Seq<char>) -> (Seq<LineView>, Cursor) {
    apply_insert_with(lines, at, d, None)
}

/// The defaults of optional attributes.
pub open spec fn given_defaults(given: Option<(AttrsView, Map<usize, AttrsView>)>) -> Option<AttrsView> {
    match given {
        Some(g) => Some(g.0),
        None => None,
    }
}

/// The lines and cursor after inserting `d` at `at` with the given attributes, as
/// `insert_at` does.
pub open spec fn apply_insert_with(
    lines: Seq<LineView>,
    at: Cursor,
    d: Seq<char>,
    given: Option<(AttrsView, Map<usize, AttrsView>)>,
) -> (Seq<LineView>, Cursor) {
    if d.len() == 0 {
        (lines, at)
    } else {
        let padl = padded(lines, at.line as int, given_defaults(given));
        let l = at.line as int;
        (
            padl.take(l) + insert_block(padl[l], at.index as int, d, given) + padl.skip(l + 1),
            spec_insert_cursor(doc_of(padl), at, d),
        )
    }
}

/// An editor as values.
pub struct EditorView {
    pub lines: Seq<LineView>,
    pub cursor: Cursor,
    pub selection: Selection,
    pub cursor_moved: bool,
    pub auto_indent: bool,
    pub change: Option<Seq<ChangeItemView>>,
    pub tab_width: u16,
    pub cursor_x: Option<i32>,
}

/// What `delete_selection` needs: the selection's lines exist and its text can go.
pub open spec fn delete_selection_ok(st: EditorView) -> bool {
    &&& selection_in_lines(st.lines, st.cursor, st.selection)
    &&& editor_bounds(st.lines, st.cursor, st.selection) matches Some((s, e)) ==> deletable(st.lines, s, e)
}

/// The editor after the selection, if any, is deleted: the cursor goes to its start
/// and the selection is cleared.
pub open spec fn spec_delete_selection(st: EditorView) -> EditorView {
    match editor_bounds(st.lines, st.cursor, st.selection) {
        Some((s, e)) => EditorView {
            lines: spec_delete(st.lines, s, e),
            cursor: s,
            selection: Selection::Empty,
            change: recorded(
                st.change,
                ChangeItemView { start: s, end: e, text: spec_deleted_text(st.lines, s, e), insert: false },
            ),
            ..st
        },
        None => st,
    }
}

/// What `insert_string` needs: the selection can go and the text can then go in.
pub open spec fn insert_string_ok(st: EditorView, d: Seq<char>) -> bool {
    &&& delete_selection_ok(st)
    &&& insertable(spec_delete_selection(st).lines, spec_delete_selection(st).cursor, d)
}

/// The editor after `d` replaces the selection, the cursor ending after it.
pub open spec fn spec_insert_string(
    st: EditorView,
    d: Seq<char>,
    given: Option<(AttrsView, Map<usize, AttrsView>)>,
) -> EditorView {
    let mid = spec_delete_selection(st);
    let done = apply_insert_with(mid.lines, mid.cursor, d, given);
    EditorView {
        lines: done.0,
        cursor: done.1,
        cursor_moved: mid.cursor_moved || done.1 != mid.cursor,
        change: if d.len() == 0 {
            mid.change
        } else {
            recorded(mid.change, ChangeItemView { start: mid.cursor, end: done.1, text: d, insert: true })
        },
        ..mid
    }
}

/// The whitespace a text starts with.
pub open spec fn leading_whitespace(t: Seq<char>) -> Seq<char>
    decreases t.len(),
{
    if t.len() > 0 && is_whitespace_char(t[0]) {
        seq![t[0]] + leading_whitespace(t.drop_first())
    } else {
        Seq::empty()
    }
}

/// What a new line inserts: a newline, followed, with automatic indentation, by the
/// whitespace the cursor's line starts with.
pub open spec fn enter_text(st: EditorView) -> Seq<char> {
    if st.auto_indent {
        seq!['\n'] + leading_whitespace(st.lines[st.cursor.line as int].text)
    } else {
        seq!['\n']
    }
}

/// What a new line needs.
pub open spec fn enter_ok(st: EditorView) -> bool {
    &&& st.auto_indent ==> (st.cursor.line as int) < st.lines.len()
    &&& insert_string_ok(st, enter_text(st))
}

/// The editor after the text from `start` to `end` goes and the cursor moves to
/// `start`, unless the two are the same.
pub open spec fn delete_between(st: EditorView, start: Cursor, end: Cursor) -> EditorView {
    if start != end {
        EditorView {
            lines: spec_delete(st.lines, start, end),
            cursor: start,
            change: recorded(
                st.change,
                ChangeItemView { start, end, text: spec_deleted_text(st.lines, start, end), insert: false },
            ),
            ..st
        }
    } else {
        st
    }
}

/// The byte index where the character before byte `i` starts (zero at the start).
pub open spec fn prev_char_start(t: Seq<char>, i: int) -> usize {
    let p = byte_prefix(t, i);
    if p.len() > 0 {
        byte_len(p.drop_last()) as usize
    } else {
        0
    }
}

/// Where a backspace deletes from: the previous character, else the end of the
/// previous line.
pub open spec fn backspace_start(st: EditorView) -> Cursor {
    let end = st.cursor;
    if end.index > 0 {
        Cursor { index: prev_char_start(st.lines[end.line as int].text, end.index as int), ..end }
    } else if end.line > 0 {
        Cursor { line: (end.line - 1) as usize, index: byte_len(st.lines[end.line - 1].text) as usize, ..end }
    } else {
        end
    }
}

/// The editor after a backspace: the selection goes, else the character before the
/// cursor (joining the line to the previous one at its start).
pub open spec fn spec_backspace(st: EditorView) -> EditorView {
    match editor_bounds(st.lines, st.cursor, st.selection) {
        Some(_) => spec_delete_selection(st),
        None => delete_between(st, backspace_start(st), st.cursor),
    }
}

/// What a backspace needs.
pub open spec fn backspace_ok(st: EditorView) -> bool {
    &&& delete_selection_ok(st)
    &&& editor_bounds(st.lines, st.cursor, st.selection) is None ==> {
        &&& st.cursor.index > 0 ==> (st.cursor.line as int) < st.lines.len() && at_char_boundary(
            st.lines[st.cursor.line as int].text,
            st.cursor.index as int,
        )
        &&& backspace_start(st) != st.cursor ==> deletable(st.lines, backspace_start(st), st.cursor)
    }
}

/// The grapheme cluster that holds byte `index`: the last of those starting at or
/// before it.
pub open spec fn grapheme_at(ps: Seq<(usize, Seq<char>)>, index: usize) -> Option<(usize, Seq<char>)>
    decreases ps.len(),
{
    if ps.len() == 0 || ps[0].0 > index {
        None
    } else {
        match grapheme_at(ps.drop_first(), index) {
            Some(g) => Some(g),
            None => Some(ps[0]),
        }
    }
}

/// What a delete removes: the grapheme cluster at the cursor, else the line break at
/// the end of the line.
pub open spec fn delete_span(st: EditorView) -> (Cursor, Cursor) {
    let c = st.cursor;
    let t = st.lines[c.line as int].text;
    if c.index < byte_len(t) {
        match grapheme_at(grapheme_pieces(t), c.index) {
            Some((off, g)) => (
                Cursor { index: off, ..c },
                Cursor { index: (off + byte_len(g)) as usize, ..c },
            ),
            None => (c, c),
        }
    } else if c.line + 1 < st.lines.len() {
        (c, Cursor { line: (c.line + 1) as usize, index: 0, ..c })
    } else {
        (c, c)
    }
}

/// Where a delete removes part of a line, what it removes ends where a grapheme
/// cluster may end.
pub open spec fn delete_ends_cluster(st: EditorView) -> bool {
    let s = delete_span(st).0;
    let e = delete_span(st).1;
    editor_bounds(st.lines, st.cursor, st.selection) is None && s.line == e.line && s.index < e.index
        ==> crate::strings::cluster_end_at(st.lines[s.line as int].text, s.index as int, e.index as int)
}

/// The editor after a delete: the selection goes, else what `delete_span` covers.
pub open spec fn spec_delete_forward(st: EditorView) -> EditorView {
    match editor_bounds(st.lines, st.cursor, st.selection) {
        Some(_) => spec_delete_selection(st),
        None => delete_between(st, delete_span(st).0, delete_span(st).1),
    }
}

/// What a delete needs: the cursor's line exists with room for its spans, and at its
/// end the cursor is at the end of the text, with room to join the next line.
pub open spec fn delete_forward_ok(st: EditorView) -> bool {
    let c = st.cursor;
    &&& delete_selection_ok(st)
    &&& editor_bounds(st.lines, st.cursor, st.selection) is None ==> {
        &&& (c.line as int) < st.lines.len()
        &&& forall|k: usize|
            #[trigger] st.lines[c.line as int].spans.contains_key(k) ==> k + byte_len(
                st.lines[c.line as int].text,
            ) < usize::MAX
        &&& c.index >= byte_len(st.lines[c.line as int].text) && c.line + 1 < st.lines.len()
            ==> deletable(st.lines, c, Cursor { line: (c.line + 1) as usize, index: 0, ..c })
    }
}

/// `n` spaces.
pub open spec fn spaces(n: nat) -> Seq<char> {
    Seq::new(n, |i: int| ' ')
}

/// The byte index after a line's leading whitespace.
pub open spec fn after_whitespace(t: Seq<char>) -> nat {
    byte_len(leading_whitespace(t))
}

/// The spaces indenting a line adds: up to the next tab stop after its leading
/// whitespace, or a whole tab width on a line of only whitespace.
pub open spec fn required_indent(t: Seq<char>, tw: nat) -> nat {
    let n = leading_whitespace(t).len();
    if n < t.len() {
        (tw - n % tw) as nat
    } else {
        tw
    }
}

/// The byte index of the last tab stop within a line's leading whitespace (zero
/// where it has none).
pub open spec fn last_indent(t: Seq<char>, tw: nat) -> nat {
    let n = leading_whitespace(t).len();
    if n == 0 {
        0
    } else {
        byte_len(t.take((((n - 1) as nat / tw) * tw) as int))
    }
}

/// The lines an indent or unindent covers: those of the selection, else the
/// cursor's.
pub open spec fn indent_range(st: EditorView) -> (int, int) {
    match editor_bounds(st.lines, st.cursor, st.selection) {
        Some((s, e)) => (s.line as int, e.line as int),
        None => (st.cursor.line as int, st.cursor.line as int),
    }
}

/// A selection end moved right by `by` where it lies on line `i` at or after byte
/// `from`.
pub open spec fn shift_selection(sel: Selection, i: int, from: nat, by: nat) -> Selection {
    match sel {
        Selection::Normal(c) => if c.line == i && c.index >= from {
            Selection::Normal(Cursor { index: (c.index + by) as usize, ..c })
        } else {
            sel
        },
        Selection::Line(c) => if c.line == i && c.index >= from {
            Selection::Line(Cursor { index: (c.index + by) as usize, ..c })
        } else {
            sel
        },
        Selection::Empty => sel,
    }
}

/// A selection end moved left by `by` where it lies on line `i` after byte `from`.
pub open spec fn unshift_selection(sel: Selection, i: int, from: nat, by: nat) -> Selection {
    match sel {
        Selection::Normal(c) => if c.line == i && c.index > from {
            Selection::Normal(Cursor { index: (c.index - by) as usize, ..c })
        } else {
            sel
        },
        Selection::Line(c) => if c.line == i && c.index > from {
            Selection::Line(Cursor { index: (c.index - by) as usize, ..c })
        } else {
            sel
        },
        Selection::Empty => sel,
    }
}

/// Indenting line `i`: spaces up to the next tab stop go in after its leading
/// whitespace; a cursor on the line moves past them, and so does a selection end at
/// or after where they go.
pub open spec fn indent_one(st: EditorView, i: int) -> EditorView {
    let v = st.lines[i];
    let tw = st.tab_width as nat;
    let aw = after_whitespace(v.text);
    let req = required_indent(v.text, tw);
    let at = Cursor { line: i as usize, index: aw as usize, affinity: Affinity::Before };
    let c = st.cursor;
    EditorView {
        lines: st.lines.update(i, insert_block(v, aw as int, spaces(req), None)[0]),
        cursor: if c.line == i {
            Cursor { index: ((if c.index < aw { aw } else { c.index as nat }) + req) as usize, ..c }
        } else {
            c
        },
        selection: shift_selection(st.selection, i, aw, req),
        change: recorded(
            st.change,
            ChangeItemView {
                start: at,
                end: Cursor { index: (aw + req) as usize, ..at },
                text: spaces(req),
                insert: true,
            },
        ),
        ..st
    }
}

/// Unindenting line `i`: its leading whitespace is cut back to the last tab stop
/// within it; a cursor or selection end after that stop moves left by what went.
pub open spec fn unindent_one(st: EditorView, i: int) -> EditorView {
    let t = st.lines[i].text;
    let tw = st.tab_width as nat;
    let li = last_indent(t, tw);
    let aw = after_whitespace(t);
    let s = Cursor { line: i as usize, index: li as usize, affinity: Affinity::Before };
    let e = Cursor { line: i as usize, index: aw as usize, affinity: Affinity::Before };
    let c = st.cursor;
    if li == aw {
        st
    } else {
        EditorView {
            lines: spec_delete(st.lines, s, e),
            cursor: if c.line == i && c.index > li {
                Cursor { index: (c.index - (aw - li)) as usize, ..c }
            } else {
                c
            },
            selection: unshift_selection(st.selection, i, li, (aw - li) as nat),
            change: recorded(
                st.change,
                ChangeItemView { start: s, end: e, text: spec_deleted_text(st.lines, s, e), insert: false },
            ),
            ..st
        }
    }
}

/// Lines `first` up to `i` indented, in order.
pub open spec fn indent_upto(st: EditorView, first: int, i: int) -> EditorView
    decreases i - first,
{
    if i <= first {
        st
    } else {
        indent_one(indent_upto(st, first, i - 1), i - 1)
    }
}

/// Lines `first` up to `i` unindented, in order.
pub open spec fn unindent_upto(st: EditorView, first: int, i: int) -> EditorView
    decreases i - first,
{
    if i <= first {
        st
    } else {
        unindent_one(unindent_upto(st, first, i - 1), i - 1)
    }
}

/// What indenting needs: the lines exist, with room for the spaces and their spans,
/// and moved cursor and selection ends stay in range.
pub open spec fn indent_ok(st: EditorView) -> bool {
    let (s, e) = indent_range(st);
    let tw = st.tab_width as nat;
    &&& selection_in_lines(st.lines, st.cursor, st.selection)
    &&& st.tab_width > 0
    &&& e < st.lines.len()
    &&& forall|i: int| s <= i <= e ==> {
        let t = #[trigger] st.lines[i].text;
        &&& byte_len(t) + required_indent(t, tw) <= usize::MAX
        &&& forall|k: usize| #[trigger] st.lines[i].spans.contains_key(k) ==> k + required_indent(t, tw) < usize::MAX
    }
    &&& s <= st.cursor.line <= e ==> st.cursor.index + byte_len(st.lines[st.cursor.line as int].text)
        + required_indent(st.lines[st.cursor.line as int].text, tw) <= usize::MAX
    &&& forall|c: Cursor| (st.selection == Selection::Normal(c) || st.selection == Selection::Line(c))
        && s <= c.line <= e ==> c.index + required_indent(st.lines[c.line as int].text, tw) <= usize::MAX
}

/// What unindenting needs: the lines exist with room for their spans, and cursor and
/// selection ends after a tab stop lie no nearer the line start than what goes.
pub open spec fn unindent_ok(st: EditorView) -> bool {
    let (s, e) = indent_range(st);
    let tw = st.tab_width as nat;
    &&& selection_in_lines(st.lines, st.cursor, st.selection)
    &&& st.tab_width > 0
    &&& e < st.lines.len()
    &&& forall|i: int, k: usize| s <= i <= e && #[trigger] st.lines[i].spans.contains_key(k) ==> k
        + byte_len(st.lines[i].text) < usize::MAX
    &&& s <= st.cursor.line <= e && st.cursor.index > last_indent(st.lines[st.cursor.line as int].text, tw)
        ==> st.cursor.index + last_indent(st.lines[st.cursor.line as int].text, tw) >= after_whitespace(
        st.lines[st.cursor.line as int].text,
    )
    &&& forall|c: Cursor| (st.selection == Selection::Normal(c) || st.selection == Selection::Line(c))
        && s <= c.line <= e && c.index > last_indent(st.lines[c.line as int].text, tw) ==> c.index
        + last_indent(st.lines[c.line as int].text, tw) >= after_whitespace(st.lines[c.line as int].text)
}

/// The actions that the text alone decides: the edits and the text motions. The others
/// move through the laid-out buffer.
pub open spec fn is_text_action(a: Action) -> bool {
    match a {
        Action::Escape | Action::Insert(_) | Action::Enter | Action::Backspace | Action::Delete
        | Action::Indent | Action::Unindent => true,
        _ => is_text_motion(a) || is_directional_motion(a),
    }
}

/// A character that inserting refuses: a control character other than tab,
/// newline and U+0092.
pub open spec fn refused_char(c: char) -> bool {
    is_control_char(c) && c != '\t' && c != '\n' && c != '\u{92}'
}

/// What an action needs.
pub open spec fn action_ok(st: EditorView, a: Action) -> bool {
    &&& is_text_action(a)
    &&& match a {
        Action::Insert(c) => if refused_char(c) {
            true
        } else if c == '\n' {
            enter_ok(st)
        } else {
            insert_string_ok(st, seq![c])
        },
        Action::Enter => enter_ok(st),
        Action::Backspace => backspace_ok(st),
        Action::Delete => delete_forward_ok(st),
        Action::Indent => indent_ok(st),
        Action::Unindent => unindent_ok(st),
        Action::BufferEnd => st.lines.len() > 0,
        _ => true,
    }
}

/// The editor after an action; a cursor that moved is marked as moved.
pub open spec fn spec_action(st: EditorView, a: Action) -> EditorView {
    let r = match a {
        Action::Escape => EditorView { selection: Selection::Empty, ..st },
        Action::Insert(c) => if refused_char(c) {
            st
        } else if c == '\n' {
            spec_insert_string(st, enter_text(st), None)
        } else {
            spec_insert_string(st, seq![c], None)
        },
        Action::Enter => spec_insert_string(st, enter_text(st), None),
        Action::Backspace => spec_backspace(st),
        Action::Delete => spec_delete_forward(st),
        Action::Indent => indent_upto(st, indent_range(st).0, indent_range(st).1 + 1),
        Action::Unindent => unindent_upto(st, indent_range(st).0, indent_range(st).1 + 1),
        _ => {
            let m = if is_directional_motion(a) {
                match line_rtl(st.lines, st.cursor.line) {
                    Some(rtl) => Some(directed_motion(a, rtl)),
                    None => None,
                }
            } else {
                Some(a)
            };
            match m {
                Some(m) => match spec_motion(st.lines, st.cursor, m) {
                    Some(c) => EditorView { cursor: c, cursor_x: None, ..st },
                    None => st,
                },
                None => st,
            }
        },
    };
    EditorView { cursor_moved: r.cursor_moved || r.cursor != st.cursor, ..r }
}

/// The lines and cursor after applying change items in order: an insertion leaves
/// the cursor after the inserted text, a deletion at its start.
pub open spec fn apply_items(lines: Seq<LineView>, cursor: Cursor, items: Seq<ChangeItemView>) -> (
    Seq<LineView>,
    Cursor,
)
    decreases items.len(),
{
    if items.len() == 0 {
        (lines, cursor)
    } else {
        let prev = apply_items(lines, cursor, items.drop_last());
        let it = items.last();
        if it.insert {
            apply_insert(prev.0, it.start, it.text)
        } else {
            (spec_delete(prev.0, it.start, it.end), it.start)
        }
    }
}

/// Every item applies to the lines the items before it leave.
pub open spec fn items_applicable(lines: Seq<LineView>, cursor: Cursor, items: Seq<ChangeItemView>) -> bool
    decreases items.len(),
{
    if items.len() == 0 {
        true
    } else {
        let prev = apply_items(lines, cursor, items.drop_last());
        let it = items.last();
        &&& items_applicable(lines, cursor, items.drop_last())
        &&& if it.insert {
            insertable(prev.0, it.start, it.text)
        } else {
            deletable(prev.0, it.start, it.end)
        }
    }
}

/// An editor over the lines of a buffer
pub struct Editor {
    lines: Vec<BufferLine>,
    cursor: Cursor,
    cursor_x_opt: Option<i32>,
    selection: Selection,
    cursor_moved: bool,
    auto_indent: bool,
    change: Option<Change>,
    tab_width: u16,
}

impl Editor {
    /// The lines, as values.
    pub closed spec fn lines_view(&self) -> Seq<LineView> {
        self.lines@.map_values(|l: BufferLine| l@)
    }

    pub closed spec fn cursor_view(&self) -> Cursor {
        self.cursor
    }

    pub closed spec fn selection_view(&self) -> Selection {
        self.selection
    }

    pub closed spec fn cursor_moved_view(&self) -> bool {
        self.cursor_moved
    }

    pub closed spec fn auto_indent_view(&self) -> bool {
        self.auto_indent
    }

    pub closed spec fn tab_width_view(&self) -> u16 {
        self.tab_width
    }

    /// The column that vertical motions remember, if any.
    pub closed spec fn cursor_x_view(&self) -> Option<i32> {
        self.cursor_x_opt
    }

    /// The change being collected, if any.
    pub closed spec fn change_view(&self) -> Option<Seq<ChangeItemView>> {
        match self.change {
            Some(c) => Some(item_views(c.items@)),
            None => None,
        }
    }

    /// Create a new editor over the given lines
    pub fn new(lines: Vec<BufferLine>) -> (e: Self)
        ensures
            e.lines_view() == lines@.map_values(|l: BufferLine| l@),
            e.cursor_view() == (Cursor { line: 0, index: 0, affinity: crate::edit::Affinity::Before }),
            e.selection_view() == Selection::Empty,
            !e.cursor_moved_view(),
            !e.auto_indent_view(),
            e.change_view() is None,
            e.tab_width_view() == 8,
    {
        Self {
            lines,
            cursor: Cursor::new(0, 0),
            cursor_x_opt: None,
            selection: Selection::Empty,
            cursor_moved: false,
            auto_indent: false,
            change: None,
            tab_width: 8,
        }
    }

    /// The lines edited, as owned lines.
    pub fn into_lines(self) -> (lines: Vec<BufferLine>)
        ensures
            lines@.map_values(|l: BufferLine| l@) == self.lines_view(),
    {
        self.lines
    }

    /// The lines edited
    pub fn lines(&self) -> (lines: &Vec<BufferLine>)
        ensures
            lines@.map_values(|l: BufferLine| l@) == self.lines_view(),
    {
        &self.lines
    }

    /// Get the current cursor
    pub fn cursor(&self) -> (c: Cursor)
        ensures
            c == self.cursor_view(),
    {
        self.cursor
    }

    /// Set the current cursor; a new position marks the cursor as moved.
    pub fn set_cursor(&mut self, cursor: Cursor)
        ensures
            final(self).cursor_view() == cursor,
            final(self).cursor_moved_view() == (old(self).cursor_moved_view() || cursor != old(
                self,
            ).cursor_view()),
            final(self).lines_view() == old(self).lines_view(),
            final(self).selection_view() == old(self).selection_view(),
            final(self).auto_indent_view() == old(self).auto_indent_view(),
            final(self).tab_width_view() == old(self).tab_width_view(),
            final(self).cursor_x_view() == old(self).cursor_x_view(),
            final(self).change_view() == old(self).change_view(),
    {
        if self.cursor != cursor {
            self.cursor = cursor;
            self.cursor_moved = true;
        }
    }

    /// Get the current selection position
    pub fn selection(&self) -> (s: Selection)
        ensures
            s == self.selection_view(),
    {
        self.selection
    }

    /// Set the current selection position
    pub fn set_selection(&mut self, selection: Selection)
        ensures
            final(self).selection_view() == selection,
            final(self).cursor_view() == old(self).cursor_view(),
            final(self).cursor_moved_view() == old(self).cursor_moved_view(),
            final(self).lines_view() == old(self).lines_view(),
            final(self).auto_indent_view() == old(self).auto_indent_view(),
            final(self).tab_width_view() == old(self).tab_width_view(),
            final(self).cursor_x_view() == old(self).cursor_x_view(),
            final(self).change_view() == old(self).change_view(),
    {
        self.selection = selection;
    }

    /// Get the current automatic indentation setting
    pub fn auto_indent(&self) -> (a: bool)
        ensures
            a == self.auto_indent_view(),
    {
        self.auto_indent
    }

    /// Enable or disable automatic indentation
    pub fn set_auto_indent(&mut self, auto_indent: bool)
        ensures
            final(self).auto_indent_view() == auto_indent,
            final(self).tab_width_view() == old(self).tab_width_view(),
            final(self).cursor_x_view() == old(self).cursor_x_view(),
            final(self).cursor_view() == old(self).cursor_view(),
            final(self).cursor_moved_view() == old(self).cursor_moved_view(),
            final(self).lines_view() == old(self).lines_view(),
            final(self).selection_view() == old(self).selection_view(),
            final(self).change_view() == old(self).change_view(),
    {
        self.auto_indent = auto_indent;
    }

    /// Get the bounds of the current selection, start first
    pub fn selection_bounds(&self) -> (r: Option<(Cursor, Cursor)>)
        requires
            selection_in_lines(self.lines_view(), self.cursor_view(), self.selection_view()),
        ensures
            r == editor_bounds(self.lines_view(), self.cursor_view(), self.selection_view()),
    {
        let cursor = self.cursor;
        match self.selection {
            Selection::Empty => None,
            Selection::Normal(select) => {
                if select.line > cursor.line {
                    Some((cursor, select))
                } else if select.line < cursor.line {
                    Some((select, cursor))
                } else if select.index < cursor.index {
                    Some((select, cursor))
                } else {
                    Some((cursor, select))
                }
            },
            Selection::Line(select) => {
                let start_line = if select.line <= cursor.line {
                    select.line
                } else {
                    cursor.line
                };
                let end_line = if select.line >= cursor.line {
                    select.line
                } else {
                    cursor.line
                };
                let end_index = self.lines[end_line].text().as_bytes().len();
                proof {
                    assert(self.lines_view()[end_line as int] == self.lines@[end_line as int]@);
                    assert(line_byte_lens(self.lines_view())[end_line as int] == end_index);
                }
                Some((Cursor::new(start_line, 0), Cursor::new(end_line, end_index)))
            },
        }
    }

    /// Copy selection: the text from its start to its end, lines joined by newlines
    pub fn copy_selection(&self) -> (r: Option<String>)
        requires
            selection_in_lines(self.lines_view(), self.cursor_view(), self.selection_view()),
            editor_bounds(self.lines_view(), self.cursor_view(), self.selection_view()) matches Some(
                (s, e),
            ) ==> copyable(self.lines_view(), s, e),
        ensures
            match editor_bounds(self.lines_view(), self.cursor_view(), self.selection_view()) {
                None => r is None,
                Some((s, e)) => r is Some && r->0@ == spec_deleted_text(self.lines_view(), s, e),
            },
    {
        let (start, end) = match self.selection_bounds() {
            Some(b) => b,
            None => return None,
        };
        let ghost lv = self.lines_view();
        proof {
            assert(lv[start.line as int] == self.lines@[start.line as int]@);
            assert(lv[end.line as int] == self.lines@[end.line as int]@);
        }
        let mut selection = String::new();
        let first = self.lines[start.line].text();
        if start.line == end.line {
            let (upto, _) = split_at_byte(first, end.index);
            proof {
                lemma_split_at_boundary(first@, end.index as int);
                lemma_boundary_in_first(upto@, byte_suffix(first@, end.index as int), start.index as int);
            }
            let (_, part) = split_at_byte(upto, start.index);
            string_push_str(&mut selection, part);
            proof {
                assert(selection@ =~= spec_deleted_text(lv, start, end));
            }
            return Some(selection);
        }
        let (_, part) = split_at_byte(first, start.index);
        string_push_str(&mut selection, part);
        let ghost parts = seq![part@];
        let mut line_i = start.line + 1;
        while line_i < end.line
            invariant
                start.line < line_i <= end.line,
                (end.line as int) < lv.len(),
                lv == self.lines_view(),
                parts == seq![byte_suffix(lv[start.line as int].text, start.index as int)]
                    + lv.subrange(start.line + 1, line_i as int).map_values(|l: LineView| l.text),
                selection@ == join_lines(parts),
            decreases end.line - line_i,
        {
            string_push(&mut selection, '\n');
            let t = self.lines[line_i].text();
            string_push_str(&mut selection, t);
            proof {
                assert(lv[line_i as int] == self.lines@[line_i as int]@);
                let next = parts.push(t@);
                assert(next.drop_last() =~= parts);
                assert(selection@ =~= join_lines(next));
                parts = next;
                assert(parts =~= seq![byte_suffix(lv[start.line as int].text, start.index as int)]
                    + lv.subrange(start.line + 1, line_i + 1).map_values(|l: LineView| l.text));
            }
            line_i = line_i + 1;
        }
        string_push(&mut selection, '\n');
        let (part, _) = split_at_byte(self.lines[end.line].text(), end.index);
        string_push_str(&mut selection, part);
        proof {
            let next = parts.push(part@);
            assert(next.drop_last() =~= parts);
            assert(selection@ =~= join_lines(next));
            assert(next =~= seq![byte_suffix(lv[start.line as int].text, start.index as int)]
                + lv.subrange(start.line + 1, end.line as int).map_values(|l: LineView| l.text)
                + seq![byte_prefix(lv[end.line as int].text, end.index as int)]);
        }
        Some(selection)
    }

    /// The editor, as values.
    pub closed spec fn state(&self) -> EditorView {
        EditorView {
            lines: self.lines_view(),
            cursor: self.cursor,
            selection: self.selection,
            cursor_moved: self.cursor_moved,
            auto_indent: self.auto_indent,
            change: self.change_view(),
            tab_width: self.tab_width,
            cursor_x: self.cursor_x_opt,
        }
    }

    /// Delete selection, adjusting cursor and returning true if there was a selection
    pub fn delete_selection(&mut self) -> (deleted: bool)
        requires
            delete_selection_ok(old(self).state()),
        ensures
            deleted == editor_bounds(old(self).lines_view(), old(self).cursor_view(), old(self).selection_view()) is Some,
            final(self).state() == spec_delete_selection(old(self).state()),
    {
        let (start, end) = match self.selection_bounds() {
            Some(b) => b,
            None => return false,
        };
        self.cursor = start;
        self.selection = Selection::Empty;
        self.delete_range(start, end);
        true
    }

    /// Insert a string at the current cursor or replacing the current selection with
    /// the given attributes, or with the previous character's attributes if None is
    /// given; the cursor ends after the inserted text.
    pub fn insert_string(&mut self, data: &str, attrs_list: Option<AttrsList>)
        requires
            insert_string_ok(old(self).state(), data@),
        ensures
            final(self).state() == spec_insert_string(old(self).state(), data@, given_attrs(attrs_list)),
    {
        self.delete_selection();
        let ghost given = given_attrs(attrs_list);
        let at = self.cursor;
        let new_cursor = self.insert_at(at, data, attrs_list);
        proof {
            if data@.len() > 0 {
                assert(defaults_of(attrs_list) == given_defaults(given));
            }
        }
        self.set_cursor(new_cursor);
    }

    /// A new line at the cursor, indented like the cursor's line with automatic
    /// indentation.
    fn enter(&mut self)
        requires
            enter_ok(old(self).state()),
        ensures
            final(self).state() == spec_insert_string(old(self).state(), enter_text(old(self).state()), None),
    {
        let mut text = String::new();
        string_push(&mut text, '\n');
        if self.auto_indent {
            let ghost t = self.lines_view()[self.cursor.line as int].text;
            proof {
                assert(self.lines_view()[self.cursor.line as int] == self.lines@[self.cursor.line as int]@);
            }
            let line = self.lines[self.cursor.line].text();
            let mut indenting = true;
            for c in it: line.chars()
                invariant
                    it.seq() == t,
                    indenting ==> text@ == seq!['\n'] + t.take(it.index() as int) && t.take(it.index() as int)
                        == leading_whitespace(t).take(it.index() as int) && it.index() <= leading_whitespace(t).len(),
                    !indenting ==> text@ == seq!['\n'] + leading_whitespace(t),
            {
                let ghost k = it.index();
                if indenting {
                    if is_whitespace(c) {
                        string_push(&mut text, c);
                        proof {
                            lemma_leading_whitespace_step(t, k as int);
                        }
                    } else {
                        indenting = false;
                        proof {
                            lemma_leading_whitespace_stop(t, k as int);
                        }
                    }
                }
            }
            proof {
                if indenting {
                    assert(t.take(t.len() as int) =~= t);
                    lemma_leading_whitespace_len(t);
                    assert(leading_whitespace(t).take(t.len() as int) =~= leading_whitespace(t));
                }
            }
        }
        self.insert_string(text.as_str(), None);
    }

    /// Backspace: delete the selection, else the character before the cursor.
    fn backspace(&mut self)
        requires
            backspace_ok(old(self).state()),
        ensures
            final(self).state() == spec_backspace(old(self).state()),
    {
        if self.delete_selection() {
            return;
        }
        let end = self.cursor;
        let ghost st = self.state();
        let mut start = self.cursor;
        if start.index > 0 {
            proof {
                assert(self.lines_view()[start.line as int] == self.lines@[start.line as int]@);
            }
            let (before, _) = split_at_byte(self.lines[start.line].text(), start.index);
            let mut owned = before.to_owned();
            string_pop(&mut owned);
            start.index = text_len(&owned);
        } else if start.line > 0 {
            start.line = start.line - 1;
            proof {
                assert(self.lines_view()[start.line as int] == self.lines@[start.line as int]@);
            }
            start.index = self.lines[start.line].text().as_bytes().len();
        }
        proof {
            assert(start == backspace_start(st));
        }
        if start != end {
            self.cursor = start;
            self.delete_range(start, end);
        }
    }

    /// Delete: delete the selection, else the grapheme cluster at the cursor, else
    /// join the next line.
    fn delete_forward(&mut self)
        requires
            delete_forward_ok(old(self).state()),
        ensures
            final(self).state() == spec_delete_forward(old(self).state()),
            delete_ends_cluster(old(self).state()),
    {
        if self.delete_selection() {
            return;
        }
        let ghost st = self.state();
        let mut start = self.cursor;
        let mut end = self.cursor;
        proof {
            assert(self.lines_view()[start.line as int] == self.lines@[start.line as int]@);
        }
        let text = self.lines[start.line].text();
        let len = text.as_bytes().len();
        proof {
            assert(self.lines@.len() == self.lines.len());
        }
        if start.index < len {
            let pieces = grapheme_indices(text);
            let ghost ps = pieces@.map_values(|p: (usize, String)| (p.0, p.1@));
            let n = pieces.len();
            let mut i: usize = 0;
            while i < n && pieces[i].0 <= start.index
                invariant
                    i <= n,
                    n == pieces@.len(),
                    ps == pieces@.map_values(|p: (usize, String)| (p.0, p.1@)),
                    forall|j: int| 0 <= j < i ==> (#[trigger] ps[j]).0 <= start.index,
                decreases n - i,
            {
                proof {
                    assert(ps[i as int] == (pieces@[i as int].0, pieces@[i as int].1@));
                }
                i = i + 1;
            }
            proof {
                if i < n {
                    assert(ps[i as int] == (pieces@[i as int].0, pieces@[i as int].1@));
                }
                lemma_grapheme_at(ps, start.index, i as int);
            }
            if i > 0 {
                let off = pieces[i - 1].0;
                let glen = text_len(&pieces[i - 1].1);
                proof {
                    assert(ps[i - 1] == (pieces@[i - 1].0, pieces@[i - 1].1@));
                    lemma_grapheme_bounds(ps, text@, i - 1);
                }
                start.index = off;
                end.index = off + glen;
                proof {
                    assert(crate::strings::cluster_end_at(text@, ps[i - 1].0 as int, ps[i - 1].0 + byte_len(ps[i - 1].1)));
                }
            }
        } else if start.line + 1 < self.lines.len() {
            end.line = end.line + 1;
            end.index = 0;
        }
        proof {
            assert((start, end) == delete_span(st));
            assert(delete_ends_cluster(st));
        }
        if start != end {
            self.cursor = start;
            self.delete_range(start, end);
        }
    }

    /// Get the current tab width
    pub fn tab_width(&self) -> (w: u16)
        ensures
            w == self.tab_width_view(),
    {
        self.tab_width
    }

    /// Set the current tab width. A `tab_width` of 0 is not allowed, and will be ignored
    pub fn set_tab_width(&mut self, tab_width: u16)
        ensures
            final(self).tab_width_view() == if tab_width == 0 {
                old(self).tab_width_view()
            } else {
                tab_width
            },
            final(self).state() == (EditorView { tab_width: final(self).tab_width_view(), ..old(self).state() }),
    {
        if tab_width == 0 {
            return;
        }
        if tab_width != self.tab_width {
            self.tab_width = tab_width;
        }
    }

    /// Indent line `line_i`.
    fn indent_line(&mut self, line_i: usize)
        requires
            old(self).tab_width_view() > 0,
            (line_i as int) < old(self).lines_view().len(),
            ({
                let t = old(self).lines_view()[line_i as int].text;
                let req = required_indent(t, old(self).tab_width_view() as nat);
                &&& byte_len(t) + req <= usize::MAX
                &&& forall|k: usize| #[trigger] old(self).lines_view()[line_i as int].spans.contains_key(k) ==> k + req < usize::MAX
                &&& old(self).cursor_view().line == line_i ==> old(self).cursor_view().index + byte_len(t) + req <= usize::MAX
                &&& forall|c: Cursor| (old(self).selection_view() == Selection::Normal(c) || old(self).selection_view() == Selection::Line(c))
                    && c.line == line_i ==> c.index + req <= usize::MAX
            }),
        ensures
            final(self).state() == indent_one(old(self).state(), line_i as int),
    {
        let ghost prev = self.state();
        let tab_width = self.tab_width as usize;
        proof {
            assert(self.lines_view()[line_i as int] == self.lines@[line_i as int]@);
            lemma_ws_bounds(prev.lines[line_i as int].text, tab_width as nat);
        }
        let text = self.lines[line_i].text();
        let (after_ws, raw_indent, _) = indent_metrics(text, tab_width);
        let required = if raw_indent == 0 {
            tab_width
        } else {
            raw_indent
        };
        let ghost t = prev.lines[line_i as int].text;
        proof {
            assert(required == required_indent(t, tab_width as nat));
            lemma_spaces(required as nat);
            lemma_split_at_boundary(t, after_ws as int);
            let pre = byte_prefix(t, after_ws as int);
            let post = byte_suffix(t, after_ws as int);
            lemma_split_at_join(pre, spaces(required as nat));
            lemma_split_at_join(pre + spaces(required as nat), post);
        }
        let sp = spaces_text(required);
        let at = Cursor::new(line_i, after_ws);
        self.insert_at(at, sp.as_str(), None);
        proof {
            assert(padded(prev.lines, line_i as int, None) == prev.lines);
            assert(self.lines_view() =~= prev.lines.update(
                line_i as int,
                insert_block(prev.lines[line_i as int], after_ws as int, spaces(required as nat), None)[0],
            ));
        }
        if self.cursor.line == line_i {
            if self.cursor.index < after_ws {
                self.cursor.index = after_ws;
            }
            self.cursor.index = self.cursor.index + required;
        }
        match self.selection {
            Selection::Empty => {},
            Selection::Normal(select) => {
                if select.line == line_i && select.index >= after_ws {
                    self.selection = Selection::Normal(
                        Cursor::new_with_affinity(select.line, select.index + required, select.affinity),
                    );
                }
            },
            Selection::Line(select) => {
                if select.line == line_i && select.index >= after_ws {
                    self.selection = Selection::Line(
                        Cursor::new_with_affinity(select.line, select.index + required, select.affinity),
                    );
                }
            },
        }
    }

    /// Unindent line `line_i`.
    fn unindent_line(&mut self, line_i: usize)
        requires
            old(self).tab_width_view() > 0,
            (line_i as int) < old(self).lines_view().len(),
            ({
                let t = old(self).lines_view()[line_i as int].text;
                let tw = old(self).tab_width_view() as nat;
                &&& forall|k: usize| #[trigger] old(self).lines_view()[line_i as int].spans.contains_key(k) ==> k + byte_len(t) < usize::MAX
                &&& old(self).cursor_view().line == line_i && old(self).cursor_view().index > last_indent(t, tw)
                    ==> old(self).cursor_view().index + last_indent(t, tw) >= after_whitespace(t)
                &&& forall|c: Cursor| (old(self).selection_view() == Selection::Normal(c) || old(self).selection_view() == Selection::Line(c))
                    && c.line == line_i && c.index > last_indent(t, tw) ==> c.index + last_indent(t, tw) >= after_whitespace(t)
            }),
        ensures
            final(self).state() == unindent_one(old(self).state(), line_i as int),
    {
        let ghost prev = self.state();
        let tab_width = self.tab_width as usize;
        proof {
            assert(self.lines_view()[line_i as int] == self.lines@[line_i as int]@);
            lemma_ws_bounds(prev.lines[line_i as int].text, tab_width as nat);
        }
        let text = self.lines[line_i].text();
        let (after_ws, _, last) = indent_metrics(text, tab_width);
        if last != after_ws {
            self.delete_range(Cursor::new(line_i, last), Cursor::new(line_i, after_ws));
            if self.cursor.line == line_i && self.cursor.index > last {
                self.cursor.index = self.cursor.index - (after_ws - last);
            }
            match self.selection {
                Selection::Empty => {},
                Selection::Normal(select) => {
                    if select.line == line_i && select.index > last {
                        self.selection = Selection::Normal(
                            Cursor::new_with_affinity(select.line, select.index - (after_ws - last), select.affinity),
                        );
                    }
                },
                Selection::Line(select) => {
                    if select.line == line_i && select.index > last {
                        self.selection = Selection::Line(
                            Cursor::new_with_affinity(select.line, select.index - (after_ws - last), select.affinity),
                        );
                    }
                },
            }
        }
    }

    /// Indent every line of the selection, or the cursor's line.
    fn indent(&mut self)
        requires
            indent_ok(old(self).state()),
        ensures
            final(self).state() == indent_upto(
                old(self).state(),
                indent_range(old(self).state()).0,
                indent_range(old(self).state()).1 + 1,
            ),
    {
        let ghost st0 = self.state();
        proof {
            assert(self.lines@.len() == self.lines.len());
        }
        let (start, end) = match self.selection_bounds() {
            Some(b) => b,
            None => (self.cursor, self.cursor),
        };
        let mut line_i = start.line;
        while line_i <= end.line
            invariant
                start.line <= line_i <= end.line + 1,
                (end.line as int) < st0.lines.len(),
                st0.lines.len() <= usize::MAX,
                (start.line as int, end.line as int) == indent_range(st0),
                indent_ok(st0),
                self.state() == indent_upto(st0, start.line as int, line_i as int),
            decreases end.line + 1 - line_i,
        {
            proof {
                lemma_indent_frame(st0, start.line as int, line_i as int);
                let cur = indent_upto(st0, start.line as int, line_i as int);
                assert(cur.lines[line_i as int] == st0.lines[line_i as int]);
                assert forall|c: Cursor| (cur.selection == Selection::Normal(c) || cur.selection == Selection::Line(c))
                    && c.line == line_i implies c.index + required_indent(cur.lines[line_i as int].text, cur.tab_width as nat) <= usize::MAX by {
                    lemma_indent_selection_line(st0, start.line as int, line_i as int);
                }
            }
            self.indent_line(line_i);
            line_i = line_i + 1;
        }
    }

    /// Unindent every line of the selection, or the cursor's line.
    fn unindent(&mut self)
        requires
            unindent_ok(old(self).state()),
        ensures
            final(self).state() == unindent_upto(
                old(self).state(),
                indent_range(old(self).state()).0,
                indent_range(old(self).state()).1 + 1,
            ),
    {
        let ghost st0 = self.state();
        proof {
            assert(self.lines@.len() == self.lines.len());
        }
        let (start, end) = match self.selection_bounds() {
            Some(b) => b,
            None => (self.cursor, self.cursor),
        };
        let mut line_i = start.line;
        while line_i <= end.line
            invariant
                start.line <= line_i <= end.line + 1,
                (end.line as int) < st0.lines.len(),
                st0.lines.len() <= usize::MAX,
                (start.line as int, end.line as int) == indent_range(st0),
                unindent_ok(st0),
                self.state() == unindent_upto(st0, start.line as int, line_i as int),
            decreases end.line + 1 - line_i,
        {
            proof {
                lemma_unindent_frame(st0, start.line as int, line_i as int);
                let cur = unindent_upto(st0, start.line as int, line_i as int);
                assert(cur.lines[line_i as int] == st0.lines[line_i as int]);
                assert forall|c: Cursor| (cur.selection == Selection::Normal(c) || cur.selection == Selection::Line(c))
                    && c.line == line_i && c.index > last_indent(cur.lines[line_i as int].text, cur.tab_width as nat)
                    implies c.index + last_indent(cur.lines[line_i as int].text, cur.tab_width as nat)
                    >= after_whitespace(cur.lines[line_i as int].text) by {
                    lemma_unindent_selection_line(st0, start.line as int, line_i as int);
                }
            }
            self.unindent_line(line_i);
            line_i = line_i + 1;
        }
    }

    /// Perform an action that the text alone decides: clear the selection, insert a
    /// character, start a new line, delete backward or forward, indent or unindent, or
    /// move the cursor by grapheme cluster, by word (forward and back, or left and right
    /// following the direction of the cursor's line), to either end of a line or of the
    /// document, or to the line's first non-whitespace character. Moving up, down, by
    /// page or by visual position, clicks, drags and scrolls go through the laid-out
    /// buffer, which this editor does not hold, so it does not take them.
    #[verifier::rlimit(80)]
    pub fn action(&mut self, action: Action)
        requires
            action_ok(old(self).state(), action),
        ensures
            final(self).state() == spec_action(old(self).state(), action),
            action == Action::Delete ==> delete_ends_cluster(old(self).state()),
            is_directional_motion(action) && (old(self).state().cursor.line as int) < old(self).state().lines.len()
                && first_strong_is(old(self).state().lines[old(self).state().cursor.line as int].text, false)
                ==> final(self).state() == spec_action(old(self).state(), directed_motion(action, false)),
            is_directional_motion(action) && (old(self).state().cursor.line as int) < old(self).state().lines.len()
                && first_strong_is(old(self).state().lines[old(self).state().cursor.line as int].text, true)
                ==> final(self).state() == spec_action(old(self).state(), directed_motion(action, true)),
    {
        let old_cursor = self.cursor;
        match action {
            Action::Escape => {
                self.selection = Selection::Empty;
            },
            Action::Insert(character) => {
                if is_control(character) && character != '\t' && character != '\n' && character
                    != '\u{92}' {
                } else if character == '\n' {
                    self.enter();
                } else {
                    let mut text = String::new();
                    string_push(&mut text, character);
                    proof {
                        assert(text@ =~= seq![character]);
                    }
                    self.insert_string(text.as_str(), None);
                }
            },
            Action::Enter => {
                self.enter();
            },
            Action::Backspace => {
                self.backspace();
            },
            Action::Delete => {
                self.delete_forward();
            },
            Action::Indent => {
                self.indent();
            },
            Action::Unindent => {
                self.unindent();
            },
            Action::Left | Action::Right | Action::LeftWord | Action::RightWord => {
                match directional_motion(&self.lines, self.cursor, self.cursor_x_opt, action) {
                    Some((cursor, cursor_x_opt)) => {
                        self.cursor = cursor;
                        self.cursor_x_opt = cursor_x_opt;
                    },
                    None => {},
                }
            },
            _ => {
                match cursor_motion(&self.lines, self.cursor, self.cursor_x_opt, action) {
                    Some((cursor, cursor_x_opt)) => {
                        self.cursor = cursor;
                        self.cursor_x_opt = cursor_x_opt;
                    },
                    None => {},
                }
            },
        }
        if old_cursor != self.cursor {
            self.cursor_moved = true;
        }
    }

    /// Apply a change: its items in order, without recording them. A change being
    /// collected that already holds items makes this refuse, and return false.
    pub fn apply_change(&mut self, change: &Change) -> (applied: bool)
        requires
            !(old(self).change_view() matches Some(p) && p.len() > 0) ==> items_applicable(
                old(self).lines_view(),
                old(self).cursor_view(),
                item_views(change.items@),
            ),
        ensures
            (old(self).change_view() matches Some(p) && p.len() > 0) ==> !applied && *final(self) == *old(self),
            !(old(self).change_view() matches Some(p) && p.len() > 0) ==> {
                &&& applied
                &&& final(self).change_view() is None
                &&& (final(self).lines_view(), final(self).cursor_view()) == apply_items(
                    old(self).lines_view(),
                    old(self).cursor_view(),
                    item_views(change.items@),
                )
            },
            final(self).selection_view() == old(self).selection_view(),
            final(self).cursor_moved_view() == old(self).cursor_moved_view(),
            final(self).auto_indent_view() == old(self).auto_indent_view(),
            final(self).tab_width_view() == old(self).tab_width_view(),
            final(self).cursor_x_view() == old(self).cursor_x_view(),
    {
        match self.change.take() {
            Some(pending) => {
                if pending.items.len() > 0 {
                    self.change = Some(pending);
                    return false;
                }
            },
            None => {},
        }
        let ghost items = item_views(change.items@);
        let ghost lv0 = self.lines_view();
        let ghost c0 = self.cursor;
        let mut i: usize = 0;
        while i < change.items.len()
            invariant
                i <= change.items@.len(),
                items == item_views(change.items@),
                items_applicable(lv0, c0, items),
                (self.lines_view(), self.cursor) == apply_items(lv0, c0, items.take(i as int)),
                self.change is None,
                self.selection == old(self).selection,
                self.cursor_moved == old(self).cursor_moved,
                self.auto_indent == old(self).auto_indent,
                self.tab_width == old(self).tab_width,
                self.cursor_x_opt == old(self).cursor_x_opt,
            decreases change.items@.len() - i,
        {
            let item = &change.items[i];
            proof {
                assert(items.take(i + 1).drop_last() =~= items.take(i as int));
                assert(items.take(i + 1).last() == item@);
                lemma_applicable_prefix(lv0, c0, items, i + 1);
            }
            if item.insert {
                self.cursor = self.insert_at(item.start, item.text.as_str(), None);
            } else {
                self.cursor = item.start;
                self.delete_range(item.start, item.end);
            }
            i = i + 1;
        }
        proof {
            assert(items.take(items.len() as int) =~= items);
        }
        true
    }

    /// Start collecting change
    pub fn start_change(&mut self)
        ensures
            final(self).change_view() == (match old(self).change_view() {
                Some(p) => Some(p),
                None => Some(Seq::<ChangeItemView>::empty()),
            }),
            final(self).lines_view() == old(self).lines_view(),
            final(self).cursor_view() == old(self).cursor_view(),
            final(self).selection_view() == old(self).selection_view(),
            final(self).cursor_moved_view() == old(self).cursor_moved_view(),
            final(self).auto_indent_view() == old(self).auto_indent_view(),
            final(self).tab_width_view() == old(self).tab_width_view(),
            final(self).cursor_x_view() == old(self).cursor_x_view(),
    {
        if self.change.is_none() {
            self.change = Some(Change { items: Vec::new() });
            assert(item_views(Seq::<ChangeItem>::empty()) =~= Seq::<ChangeItemView>::empty());
        }
    }

    /// Get completed change
    pub fn finish_change(&mut self) -> (c: Option<Change>)
        ensures
            match c {
                Some(ch) => old(self).change_view() == Some(item_views(ch.items@)),
                None => old(self).change_view() is None,
            },
            final(self).change_view() is None,
            final(self).lines_view() == old(self).lines_view(),
            final(self).cursor_view() == old(self).cursor_view(),
            final(self).selection_view() == old(self).selection_view(),
            final(self).cursor_moved_view() == old(self).cursor_moved_view(),
            final(self).auto_indent_view() == old(self).auto_indent_view(),
            final(self).tab_width_view() == old(self).tab_width_view(),
            final(self).cursor_x_view() == old(self).cursor_x_view(),
    {
        self.change.take()
    }

    /// Record an edit in the change being collected, if any.
    fn record(&mut self, item: ChangeItem)
        ensures
            final(self).change_view() == recorded(old(self).change_view(), item@),
            final(self).lines == old(self).lines,
            final(self).cursor == old(self).cursor,
            final(self).selection == old(self).selection,
            final(self).cursor_moved == old(self).cursor_moved,
            final(self).auto_indent == old(self).auto_indent,
            final(self).tab_width == old(self).tab_width,
            final(self).cursor_x_opt == old(self).cursor_x_opt,
    {
        match self.change.take() {
            Some(mut change) => {
                let ghost before = change.items@;
                change.items.push(item);
                assert(item_views(change.items@) =~= item_views(before).push(item@));
                self.change = Some(change);
            },
            None => {},
        }
    }

    /// Extends the lines until line `line` exists: each added line is empty, with
    /// the last line's ending and the given default attributes, else the last line's.
    fn pad_lines(&mut self, line: usize, attrs_list: &Option<AttrsList>)
        ensures
            final(self).lines_view() == padded(old(self).lines_view(), line as int, defaults_of(*attrs_list)),
            (line as int) < final(self).lines_view().len(),
            final(self).cursor == old(self).cursor,
            final(self).selection == old(self).selection,
            final(self).cursor_moved == old(self).cursor_moved,
            final(self).auto_indent == old(self).auto_indent,
            final(self).tab_width == old(self).tab_width,
            final(self).cursor_x_opt == old(self).cursor_x_opt,
            final(self).change == old(self).change,
    {
        let ghost lv0 = self.lines_view();
        let ghost dflt = defaults_of(*attrs_list);
        while line >= self.lines.len()
            invariant
                lv0.len() <= self.lines@.len(),
                self.lines@.len() > lv0.len() ==> self.lines@.len() <= line + 1,
                self.lines@.map_values(|l: BufferLine| l@) == lv0 + Seq::new(
                    (self.lines@.len() - lv0.len()) as nat,
                    |i: int| padding_line(lv0, dflt),
                ),
                dflt == defaults_of(*attrs_list),
                self.cursor == old(self).cursor,
                self.selection == old(self).selection,
                self.cursor_moved == old(self).cursor_moved,
                self.auto_indent == old(self).auto_indent,
                self.tab_width == old(self).tab_width,
                self.cursor_x_opt == old(self).cursor_x_opt,
                self.change == old(self).change,
            decreases line + 1 - self.lines@.len(),
        {
            let n = self.lines.len();
            let ghost cur = self.lines@.map_values(|l: BufferLine| l@);
            proof {
                if n > 0 {
                    assert(cur[n - 1] == self.lines@[n - 1]@);
                    if n > lv0.len() {
                        assert(cur[n - 1] == padding_line(lv0, dflt));
                    } else {
                        assert(cur[n - 1] == lv0.last());
                    }
                }
            }
            let ending = if n > 0 {
                self.lines[n - 1].ending()
            } else {
                LineEnding::default()
            };
            let new_attrs = match attrs_list {
                Some(x) => AttrsList::new(x.defaults()),
                None => if n > 0 {
                    AttrsList::new(self.lines[n - 1].attrs_list().defaults())
                } else {
                    AttrsList::new(Attrs::new())
                },
            };
            let pad = BufferLine::new(String::new(), ending, new_attrs, Shaping::Advanced);
            proof {
                assert(pad@.text =~= Seq::<char>::empty());
                assert(pad@.spans =~= Map::<usize, AttrsView>::empty());
                assert(pad@ == padding_line(lv0, dflt));
            }
            let ghost before = self.lines@;
            proof {
                lemma_views_insert(before, before.len() as int, pad);
                assert(before.insert(before.len() as int, pad) =~= before.push(pad));
            }
            self.lines.push(pad);
            proof {
                assert(self.lines@ == before.push(pad));
                assert(self.lines@.map_values(|l: BufferLine| l@) =~= lv0 + Seq::new(
                    (self.lines@.len() - lv0.len()) as nat,
                    |i: int| padding_line(lv0, dflt),
                ));
            }
        }
        proof {
            assert(self.lines_view() =~= padded(lv0, line as int, dflt));
        }
    }

    /// Insert text at specified cursor with specified attrs_list, or with the
    /// attributes of the character before the cursor if None is given. The lines are
    /// first extended to reach the cursor; the cursor's line is split there and the
    /// text put in between, one line per newline; the position after the inserted
    /// text is returned.
    pub fn insert_at(&mut self, cursor: Cursor, data: &str, attrs_list: Option<AttrsList>) -> (c: Cursor)
        requires
            insertable(old(self).lines_view(), cursor, data@),
        ensures
            data@.len() == 0 ==> c == cursor && final(self).lines_view() == old(self).lines_view()
                && final(self).change_view() == old(self).change_view(),
            data@.len() > 0 ==> ({
                let padl = padded(old(self).lines_view(), cursor.line as int, defaults_of(attrs_list));
                let l = cursor.line as int;
                let k = text_segments(data@).len() - 1;
                &&& final(self).lines_view() == padl.take(l) + insert_block(
                    padl[l],
                    cursor.index as int,
                    data@,
                    given_attrs(attrs_list),
                ) + padl.skip(l + 1)
                &&& doc_of(final(self).lines_view()) == spec_insert(doc_of(padl), cursor, data@)
                &&& final(self).lines_view().take(l) == padl.take(l)
                &&& final(self).lines_view().skip(l + k + 1) == padl.skip(l + 1)
                &&& c == spec_insert_cursor(doc_of(padl), cursor, data@)
                &&& final(self).change_view() == recorded(
                    old(self).change_view(),
                    ChangeItemView { start: cursor, end: c, text: data@, insert: true },
                )
            }),
            final(self).cursor_view() == old(self).cursor_view(),
            final(self).selection_view() == old(self).selection_view(),
            final(self).cursor_moved_view() == old(self).cursor_moved_view(),
            final(self).auto_indent_view() == old(self).auto_indent_view(),
            final(self).tab_width_view() == old(self).tab_width_view(),
            final(self).cursor_x_view() == old(self).cursor_x_view(),
    {
        let ghost d = data@;
        let data_len = data.as_bytes().len();
        proof {
            lemma_byte_len_at_least_len(d);
            if d.len() == 0 {
                assert(d =~= Seq::<char>::empty());
            }
        }
        if data_len == 0 {
            return cursor;
        }
        let ghost lv0 = self.lines_view();
        self.pad_lines(cursor.line, &attrs_list);
        let l = cursor.line;
        let ghost lv1 = self.lines_view();
        proof {
            assert(self.lines@.len() == self.lines.len());
            assert(lv1[l as int] == self.lines@[l as int]@);
            if l >= lv0.len() {
                assert(lv1[l as int].text =~= Seq::<char>::empty());
                vstd::utf8::is_char_boundary_start_end_of_seq(vstd::utf8::encode_utf8(lv1[l as int].text));
                assert(lv1[l as int].spans =~= Map::<usize, AttrsView>::empty());
            } else {
                assert(lv1[l as int] == lv0[l as int]);
            }
        }
        let ghost given = given_attrs(attrs_list);
        proof {
            lemma_block_texts(lv1[l as int], cursor.index as int, d, given);
        }
        let mut tail = self.lines.split_off(l + 1);
        let line = self.lines.pop().unwrap();
        proof {
            assert(line@ == lv1[l as int]);
        }
        let (mut block, after_len) = build_block(line, cursor.index, data, attrs_list);
        proof {
            assert(block@.len() == block@.map_values(|x: BufferLine| x@).len());
        }
        let k = block.len() - 1;
        let last_len = block[k].text().as_bytes().len();
        let ghost bv = block@.map_values(|x: BufferLine| x@);
        proof {
            assert(bv[k as int] == block@[k as int]@);
        }
        self.lines.append(&mut block);
        self.lines.append(&mut tail);
        proof {
            assert(self.lines@.len() == self.lines.len());
            assert(bv.last() == bv[k as int]);
            assert(self.lines_view() =~= lv1.take(l as int) + bv + lv1.skip(l + 1));
            lemma_insert_block(lv1, cursor, d, bv, self.lines_view());
        }
        let end = Cursor { line: l + k, index: last_len - after_len, affinity: cursor.affinity };
        self.record(ChangeItem { start: cursor, end, text: data.to_owned(), insert: true });
        end
    }

    /// Delete text starting at start Cursor and ending at end Cursor
    pub fn delete_range(&mut self, start: Cursor, end: Cursor)
        requires
            deletable(old(self).lines_view(), start, end),
        ensures
            final(self).lines_view() == spec_delete(old(self).lines_view(), start, end),
            final(self).change_view() == recorded(
                old(self).change_view(),
                ChangeItemView {
                    start,
                    end,
                    text: spec_deleted_text(old(self).lines_view(), start, end),
                    insert: false,
                },
            ),
            final(self).cursor_view() == old(self).cursor_view(),
            final(self).selection_view() == old(self).selection_view(),
            final(self).cursor_moved_view() == old(self).cursor_moved_view(),
            final(self).auto_indent_view() == old(self).auto_indent_view(),
            final(self).tab_width_view() == old(self).tab_width_view(),
            final(self).cursor_x_view() == old(self).cursor_x_view(),
    {
        let ghost lv = self.lines_view();
        let s = start.line;
        let e = end.line;
        let mut removed: Vec<String> = Vec::new();
        proof {
            lemma_views_remove(self.lines@, s as int);
        }
        let mut line = self.lines.remove(s);
        proof {
            assert(lv.remove(s as int) =~= lv.take(s as int) + lv.skip(s + 1));
        }
        if e > s {
            // the lines after the start line, up to the end line, go
            let mut t: usize = s + 1;
            while t < e
                invariant
                    s < t <= e,
                    e < lv.len(),
                    self.lines@.map_values(|l: BufferLine| l@) == lv.take(s as int) + lv.skip(t as int),
                    line@ == lv[s as int],
                    self.cursor == old(self).cursor,
                    self.selection == old(self).selection,
                    self.cursor_moved == old(self).cursor_moved,
                    self.auto_indent == old(self).auto_indent,
                    self.tab_width == old(self).tab_width,
                    self.cursor_x_opt == old(self).cursor_x_opt,
                    self.change == old(self).change,
                    removed@.map_values(|x: String| x@) == lv.subrange(s + 1, t as int).map_values(
                        |l: LineView| l.text,
                    ),
                decreases e - t,
            {
                proof {
                    lemma_views_remove(self.lines@, s as int);
                    assert((lv.take(s as int) + lv.skip(t as int))[s as int] == lv[t as int]);
                    assert((lv.take(s as int) + lv.skip(t as int)).remove(s as int) =~= lv.take(s as int) + lv.skip(t + 1));
                }
                let l = self.lines.remove(s);
                let lt = l.into_text();
                proof {
                    lemma_texts_push(removed@, lt);
                }
                removed.push(lt);
                t = t + 1;
                proof {
                    assert(removed@.map_values(|x: String| x@) =~= lv.subrange(s + 1, t as int).map_values(|l: LineView| l.text));
                }
            }
            proof {
                lemma_views_remove(self.lines@, s as int);
                assert((lv.take(s as int) + lv.skip(e as int))[s as int] == lv[e as int]);
                assert((lv.take(s as int) + lv.skip(e as int)).remove(s as int) =~= lv.take(s as int) + lv.skip(e + 1));
            }
            let mut end_line = self.lines.remove(s);
            let after = end_line.split_off(end.index);
            let et = end_line.into_text();
            proof {
                lemma_texts_push(removed@, et);
            }
            removed.push(et);
            let cut = line.split_off(start.index);
            let ct = cut.into_text();
            let ghost before = removed@;
            removed.insert(0, ct);
            proof {
                lemma_split_at_boundary(lv[s as int].text, start.index as int);
                lemma_split_at_boundary(lv[e as int].text, end.index as int);
                assert(removed@ == before.insert(0, ct));
                assert(removed@.map_values(|x: String| x@) =~= seq![byte_suffix(lv[s as int].text, start.index as int)] + lv.subrange(s + 1, e as int).map_values(
                |l: LineView| l.text) + seq![byte_prefix(lv[e as int].text, end.index as int)]);
            }
            line.append(&after);
            proof {
                lemma_views_insert(self.lines@, s as int, line);
            }
            self.lines.insert(s, line);
            proof {
                assert(self.lines@.map_values(|l: BufferLine| l@) =~= spec_delete(lv, start, end));
            }
        } else if e == s {
            let after = line.split_off(end.index);
            proof {
                lemma_split_at_boundary(lv[s as int].text, end.index as int);
                lemma_boundary_in_first(line@.text, after@.text, start.index as int);
            }
            let ghost mid = line@;
            let cut = line.split_off(start.index);
            let ct = cut.into_text();
            proof {
                lemma_split_at_boundary(lv[s as int].text, start.index as int);
                lemma_texts_push(removed@, ct);
                assert(points_below(mid.spans, start.index) =~= points_below(lv[s as int].spans, start.index));
            }
            removed.push(ct);
            proof {
                assert(removed@.map_values(|x: String| x@) =~= seq![ct@]);
            }
            line.append(&after);
            proof {
                lemma_views_insert(self.lines@, s as int, line);
            }
            self.lines.insert(s, line);
            proof {
                assert(self.lines@.map_values(|l: BufferLine| l@) =~= spec_delete(lv, start, end));
            }
        } else {
            let cut = line.split_off(start.index);
            let ct = cut.into_text();
            proof {
                lemma_texts_push(removed@, ct);
                lemma_views_insert(self.lines@, s as int, line);
            }
            removed.push(ct);
            proof {
                assert(removed@.map_values(|x: String| x@) =~= seq![ct@]);
            }
            self.lines.insert(s, line);
            proof {
                assert(self.lines@.map_values(|l: BufferLine| l@) =~= spec_delete(lv, start, end));
            }
        }
        let text = join_with_newlines(&removed);
        self.record(ChangeItem { start, end, text, insert: false });
    }
}

proof fn lemma_views_remove(v: Seq<BufferLine>, i: int)
    requires
        0 <= i < v.len(),
    ensures
        v.remove(i).map_values(|l: BufferLine| l@) == v.map_values(|l: BufferLine| l@).remove(i),
        v.map_values(|l: BufferLine| l@)[i] == v[i]@,
{
    assert(v.remove(i).map_values(|l: BufferLine| l@) =~= v.map_values(|l: BufferLine| l@).remove(i));
}

proof fn lemma_views_insert(v: Seq<BufferLine>, i: int, x: BufferLine)
    requires
        0 <= i <= v.len(),
    ensures
        v.insert(i, x).map_values(|l: BufferLine| l@) == v.map_values(|l: BufferLine| l@).insert(i, x@),
{
    assert(v.insert(i, x).map_values(|l: BufferLine| l@) =~= v.map_values(|l: BufferLine| l@).insert(i, x@));
}

proof fn lemma_texts_push(v: Seq<String>, x: String)
    ensures
        v.push(x).map_values(|t: String| t@) == v.map_values(|t: String| t@).push(x@),
{
    assert(v.push(x).map_values(|t: String| t@) =~= v.map_values(|t: String| t@).push(x@));
}

proof fn lemma_strip_len(x: Seq<char>)
    ensures
        byte_len(strip_control_end(x)) <= byte_len(x),
{
    if x.len() > 0 && is_control_char(x.last()) {
        assert(x =~= x.drop_last().push(x.last()));
        lemma_byte_len_push(x.drop_last(), x.last());
    }
}

/// The lines that `insert_at` builds in place of the cursor's line make the document
/// of `spec_insert`, and the last of them holds the returned cursor.
proof fn lemma_insert_block(
    lv1: Seq<LineView>,
    at: Cursor,
    d: Seq<char>,
    block: Seq<LineView>,
    fin: Seq<LineView>,
)
    requires
        (at.line as int) < lv1.len(),
        d.len() > 0,
        fin.len() <= usize::MAX,
        block.len() > 0 ==> byte_len(block.last().text) <= usize::MAX,
        ({
            let l = at.line as int;
            let t = lv1[l].text;
            let texts = inserted_texts(byte_prefix(t, at.index as int), d, byte_suffix(t, at.index as int));
            &&& block.len() == texts.len()
            &&& forall|i: int| 0 <= i < block.len() ==> (#[trigger] block[i]).text == texts[i]
                && block[i].ending == lv1[l].ending
            &&& fin == lv1.take(l) + block + lv1.skip(l + 1)
        }),
    ensures
        block.len() == text_segments(d).len(),
        doc_of(fin) == spec_insert(doc_of(lv1), at, d),
        fin.take(at.line as int) == lv1.take(at.line as int),
        fin.skip(at.line + text_segments(d).len()) == lv1.skip(at.line + 1),
        spec_insert_cursor(doc_of(lv1), at, d).line == at.line + text_segments(d).len() - 1,
        byte_len(block.last().text) >= byte_len(byte_suffix(lv1[at.line as int].text, at.index as int)),
        spec_insert_cursor(doc_of(lv1), at, d).index == byte_len(block.last().text) - byte_len(
            byte_suffix(lv1[at.line as int].text, at.index as int),
        ),
        spec_insert_cursor(doc_of(lv1), at, d).affinity == at.affinity,
{
    let l = at.line as int;
    let t = lv1[l].text;
    let e = lv1[l].ending;
    let pre = byte_prefix(t, at.index as int);
    let post = byte_suffix(t, at.index as int);
    lemma_segments_nonempty(d);
    let k = text_segments(d).len() - 1;
    let texts = inserted_texts(pre, d, post);
    let doc = doc_of(lv1);
    assert(doc[l] == (t, e));
    assert(doc_of(fin) =~= spec_insert(doc, at, d)) by {
        assert forall|i: int| 0 <= i < fin.len() implies #[trigger] doc_of(fin)[i] == spec_insert(doc, at, d)[i] by {
            if i < l {
            } else if i <= l + k {
                assert(fin[i] == block[i - l]);
            } else {
                assert(fin[i] == lv1[i - k]);
            }
        }
    }
    assert(fin.take(l) =~= lv1.take(l));
    assert(fin.skip(l + k + 1) =~= lv1.skip(l + 1));
    let head = texts[k].take(texts[k].len() - post.len());
    assert(texts[k] =~= head + post);
    lemma_split_at_join(head, post);
    assert(block.last() == block[k]);
}

/// The lines that take the place of `line` when `data` is inserted at byte `index`
/// of it. Also returns the byte length of the line's text from `index` on.
#[verifier::rlimit(80)]
fn build_block(line: BufferLine, index: usize, data: &str, attrs_list: Option<AttrsList>) -> (r: (Vec<BufferLine>, usize))
    requires
        data@.len() > 0,
        at_char_boundary(line@.text, index as int),
        byte_len(line@.text) + byte_len(data@) <= usize::MAX,
        forall|k: usize| #[trigger] line@.spans.contains_key(k) ==> k + byte_len(data@) < usize::MAX,
    ensures
        r.0@.map_values(|x: BufferLine| x@) == insert_block(line@, index as int, data@, given_attrs(attrs_list)),
        r.1 == byte_len(byte_suffix(line@.text, index as int)),
{
    let ghost d = data@;
    let ghost lv = line@;
    let ghost t = line@.text;
    let ghost given = given_attrs(attrs_list);
    let mut line = line;
    let mut remaining_split_len = data.as_bytes().len();
    proof {
        lemma_split_at_boundary(t, index as int);
    }
    let ghost pre = byte_prefix(t, index as int);
    let ghost post = byte_suffix(t, index as int);
    let ending = line.ending();
    let after = line.split_off(index);
    let ghost kept = line@;
    let after_len = after.text().as_bytes().len();
    let mut final_attrs = match attrs_list {
        Some(a) => a,
        None => {
            let i = if index > 0 {
                index - 1
            } else {
                0
            };
            AttrsList::new(line.attrs_list().get_span(i))
        },
    };
    let ghost fd = insert_attrs(kept, index as int, given).0;
    let ghost fs = insert_attrs(kept, index as int, given).1;
    proof {
        assert(final_attrs.defaults_view() == fd);
        assert(final_attrs.spans_view() =~= fs);
    }
    let segs = split_segments(data);
    let ghost sv = segs@.map_values(|x: String| x@);
    proof {
        lemma_segments_join(d);
        lemma_join_len(sv);
        assert(sv.len() == segs@.len());
    }
    let k = segs.len() - 1;
    let seg0_len = text_len(&segs[0]);
    proof {
        assert(sv[0] == segs@[0]@);
        assert(sv[k as int] == segs@[k as int]@);
        if k >= 1 {
            lemma_lines_len_split(sv, 0, 1, k as int);
        }
        lemma_strip_len(sv[0]);
        lemma_strip_len(sv[k as int]);
    }
    let p0_len = if k == 0 {
        seg0_len
    } else {
        seg0_len + 1
    };
    let ghost r = points_shifted_from(fs, p0_len);
    let ghost blk = insert_block(lv, index as int, d, given);
    let mut these_attrs = final_attrs.split_off(p0_len);
    remaining_split_len = remaining_split_len - p0_len;
    core::mem::swap(&mut these_attrs, &mut final_attrs);
    let first_text = if k == 0 {
        strip_control_end_text(segs[0].clone())
    } else {
        segs[0].clone()
    };
    proof {
        lemma_split_at_join(pre, first_text@);
        assert(lines_len(sv, 0, 0) == 0);
        assert(lines_len(sv, 0, 1) == byte_len(sv[0]) + 1);
    }
    line.append(&BufferLine::new(first_text, ending, these_attrs, Shaping::Advanced));
    let mut block: Vec<BufferLine> = Vec::new();
    if k > 0 {
        let segk_len = text_len(&segs[k]);
        remaining_split_len = remaining_split_len - segk_len;
        let tail_attrs = final_attrs.split_off(remaining_split_len);
        let mut tmp = BufferLine::new(
            strip_control_end_text(segs[k].clone()),
            ending,
            tail_attrs,
            Shaping::Advanced,
        );
        proof {
            lemma_split_at_join(tmp@.text, post);
        }
        tmp.append(&after);
        proof {
            assert(line@ == blk[0]);
            assert(tmp@ == blk[k as int]);
        }
        block.push(line);
        block.push(tmp);
    } else {
        proof {
            lemma_split_at_join(line@.text, post);
        }
        line.append(&after);
        proof {
            assert(line@ == blk[0]);
        }
        block.push(line);
    }
    let mut j = k;
    while j > 1
        invariant
            j <= k,
            k + 1 == sv.len(),
            sv == segs@.map_values(|x: String| x@),
            sv == text_segments(d),
            blk == insert_block(lv, index as int, d, given),
            blk.len() == k + 1,
            r == points_shifted_from(fs, p0_len),
            p0_len == (if k == 0 { byte_len(sv[0]) } else { byte_len(sv[0]) + 1 }),
            fd == insert_attrs(kept, index as int, given).0,
            fs == insert_attrs(kept, index as int, given).1,
            kept == split_kept(lv, index as int),
            ending == lv.ending,
            final_attrs.defaults_view() == fd,
            k > 0 ==> final_attrs.spans_view() == points_below(r, lines_len(sv, 1, j as int) as usize),
            k == 0 ==> j == 0 && remaining_split_len == 0,
            k > 0 ==> 1 <= j && remaining_split_len == lines_len(sv, 1, j as int),
            lines_len(sv, 1, j as int) <= usize::MAX,
            block@.len() == k + 1 - (if k > 0 { j - 1 } else { 0 }),
            block@[0]@ == blk[0],
            block@.last()@ == blk[k as int],
            forall|i: int| 1 <= i < block@.len() - 1 ==> (#[trigger] block@[i])@ == blk[j - 1 + i],
        decreases j,
    {
        j = j - 1;
        let segj_len = text_len(&segs[j]);
        proof {
            assert(sv[j as int] == segs@[j as int]@);
            lemma_lines_len_split(sv, 1, j as int, j + 1);
            assert(lines_len(sv, j as int, j + 1) == byte_len(sv[j as int]) + 1) by {
                assert(lines_len(sv, j as int, j as int) == 0);
            }
        }
        remaining_split_len = remaining_split_len - (segj_len + 1);
        let ghost before = final_attrs.spans_view();
        let piece_attrs = final_attrs.split_off(remaining_split_len);
        proof {
            lemma_below_below(r, lines_len(sv, 1, j + 1) as usize, remaining_split_len);
        }
        let tmp = BufferLine::new(segs[j].clone(), ending, piece_attrs, Shaping::Advanced);
        proof {
            assert(tmp@ == blk[j as int]);
        }
        let ghost bl = block@;
        block.insert(1, tmp);
        proof {
            assert forall|i: int| 1 <= i < block@.len() - 1 implies (#[trigger] block@[i])@ == blk[j - 1 + i] by {
                if i > 1 {
                    assert(block@[i] == bl[i - 1]);
                }
            }
        }
    }
    proof {
        let bv = block@.map_values(|x: BufferLine| x@);
        assert(bv =~= blk) by {
            assert forall|i: int| 0 <= i < blk.len() implies #[trigger] bv[i] == blk[i] by {
                if i == k {
                    assert(block@[i] == block@.last());
                }
            }
        }
    }
    (block, after_len)
}

/// The texts and endings of the lines an insertion makes.
proof fn lemma_block_texts(line: LineView, index: int, d: Seq<char>, given: Option<(AttrsView, Map<usize, AttrsView>)>)
    requires
        at_char_boundary(line.text, index),
        d.len() > 0,
    ensures
        ({
            let blk = insert_block(line, index, d, given);
            let texts = inserted_texts(byte_prefix(line.text, index), d, byte_suffix(line.text, index));
            &&& blk.len() == texts.len()
            &&& blk.len() == text_segments(d).len()
            &&& blk.len() >= 1
            &&& forall|i: int| 0 <= i < blk.len() ==> (#[trigger] blk[i]).text == texts[i]
                && blk[i].ending == line.ending
        }),
{
    lemma_segments_nonempty(d);
    let blk = insert_block(line, index, d, given);
    let texts = inserted_texts(byte_prefix(line.text, index), d, byte_suffix(line.text, index));
    let k = text_segments(d).len() - 1;
    assert forall|i: int| 0 <= i < blk.len() implies (#[trigger] blk[i]).text == texts[i] && blk[i].ending == line.ending by {
        if k == 0 {
            assert(texts[0] =~= byte_prefix(line.text, index) + strip_control_end(text_segments(d)[0]) + byte_suffix(line.text, index));
        }
    }
}

/// A text of `n` spaces.
fn spaces_text(n: usize) -> (r: String)
    ensures
        r@ == spaces(n as nat),
{
    let mut r = String::new();
    let mut i: usize = 0;
    while i < n
        invariant
            i <= n,
            r@ == spaces(i as nat),
        decreases n - i,
    {
        string_push(&mut r, ' ');
        i = i + 1;
        assert(r@ =~= spaces(i as nat));
    }
    r
}

/// The byte index after a line's leading whitespace, the spaces to its next tab stop
/// (zero on a line of only whitespace), and the byte index of the last tab stop
/// within it.
pub(crate) fn indent_metrics(text: &str, tab_width: usize) -> (r: (usize, usize, usize))
    requires
        tab_width > 0,
    ensures
        r.0 == after_whitespace(text@),
        r.1 == if leading_whitespace(text@).len() < text@.len() {
            required_indent(text@, tab_width as nat)
        } else {
            0
        },
        r.2 == last_indent(text@, tab_width as nat),
{
    let ghost t = text@;
    let ghost tw = tab_width as nat;
    let len = text.as_bytes().len();
    let mut after_ws = len;
    let mut required: usize = 0;
    let mut last: usize = 0;
    let mut count: usize = 0;
    let mut index: usize = 0;
    let mut done = false;
    proof {
        lemma_leading_whitespace_len(t);
        lemma_byte_len_at_least_len(t);
    }
    for c in it: text.chars()
        invariant
            it.seq() == t,
            tab_width > 0,
            tw == tab_width as nat,
            len == byte_len(t),
            len >= t.len(),
            leading_whitespace(t).len() <= t.len(),
            !done ==> {
                &&& count == it.index()
                &&& count <= leading_whitespace(t).len()
                &&& t.take(count as int) == leading_whitespace(t).take(count as int)
                &&& index == byte_len(t.take(count as int))
                &&& last == (if count == 0 {
                    0
                } else {
                    byte_len(t.take((((count - 1) as nat / tw) * tw) as int))
                })
                &&& after_ws == len
                &&& required == 0
            },
            done ==> {
                &&& after_ws == after_whitespace(t)
                &&& leading_whitespace(t).len() < t.len()
                &&& required == required_indent(t, tw)
                &&& last == last_indent(t, tw)
            },
    {
        let ghost k = it.index();
        if !done {
            if !is_whitespace(c) {
                proof {
                    lemma_leading_whitespace_stop(t, k as int);
                }
                after_ws = index;
                required = tab_width - count % tab_width;
                done = true;
            } else {
                proof {
                    lemma_leading_whitespace_step(t, k as int);
                    assert(t.take(k + 1) =~= t.take(k as int).push(c));
                    lemma_byte_len_push(t.take(k as int), c);
                    lemma_byte_len_take(t, k + 1);
                    lemma_tab_stop_step(count as nat, tw);
                }
                if count % tab_width == 0 {
                    last = index;
                }
                index = index + char_len(c);
                count = count + 1;
            }
        }
    }
    proof {
        if !done {
            assert(t.take(t.len() as int) =~= t);
            assert(leading_whitespace(t).take(t.len() as int) =~= leading_whitespace(t));
        }
    }
    (after_ws, required, last)
}

/// The last tab stop before `count + 1` characters: `count` itself where it is a tab
/// stop, else the one before `count`.
proof fn lemma_tab_stop_step(count: nat, tw: nat)
    requires
        tw > 0,
    ensures
        count % tw == 0 ==> (count / tw) * tw == count,
        count % tw != 0 && count > 0 ==> (count / tw) * tw == (((count - 1) as nat / tw) * tw),
{
    assert(count == (count / tw) * tw + count % tw) by (nonlinear_arith)
        requires tw > 0;
    if count % tw != 0 && count > 0 {
        let c1 = (count - 1) as nat;
        assert(c1 == (c1 / tw) * tw + c1 % tw) by (nonlinear_arith)
            requires tw > 0;
        assert(count / tw == c1 / tw) by (nonlinear_arith)
            requires
                tw > 0,
                c1 + 1 == count,
                count % tw != 0,
                count == (count / tw) * tw + count % tw,
                c1 == (c1 / tw) * tw + c1 % tw,
                0 <= count % tw < tw,
                0 <= c1 % tw < tw,
        ;
    }
}

/// Spaces: one byte each, no control character to drop, no newline to split at.
proof fn lemma_spaces(n: nat)
    ensures
        byte_len(spaces(n)) == n,
        n > 0 ==> strip_control_end(spaces(n)) == spaces(n),
        text_segments(spaces(n)) == seq![spaces(n)],
    decreases n,
{
    if n > 0 {
        lemma_spaces((n - 1) as nat);
        assert(spaces(n) =~= spaces((n - 1) as nat).push(' '));
        lemma_byte_len_push(spaces((n - 1) as nat), ' ');
        assert(vstd::utf8::encode_scalar(' ' as u32).len() == 1);
        assert(spaces(n).drop_last() =~= spaces((n - 1) as nat));
        assert(text_segments(spaces(n)) =~= seq![spaces(n)]);
    } else {
        assert(spaces(n) =~= Seq::<char>::empty());
    }
}

/// The end of the leading whitespace and the last tab stop within it are character
/// boundaries, in order.
proof fn lemma_ws_bounds(t: Seq<char>, tw: nat)
    requires
        tw > 0,
    ensures
        at_char_boundary(t, after_whitespace(t) as int),
        at_char_boundary(t, last_indent(t, tw) as int),
        last_indent(t, tw) <= after_whitespace(t) <= byte_len(t),
{
    lemma_leading_whitespace_len(t);
    let n = leading_whitespace(t).len();
    assert(leading_whitespace(t) =~= t.take(n as int));
    assert(t =~= t.take(n as int) + t.skip(n as int));
    lemma_split_at_join(t.take(n as int), t.skip(n as int));
    if n > 0 {
        let m = (((n - 1) as nat / tw) * tw) as int;
        assert(((n - 1) as nat / tw) * tw <= (n - 1) as nat) by (nonlinear_arith)
            requires tw > 0;
        assert(t =~= t.take(m) + t.skip(m));
        lemma_split_at_join(t.take(m), t.skip(m));
        assert(t.take(n as int).take(m) =~= t.take(m));
        lemma_byte_len_take(t.take(n as int), m);
    }
}

/// Indenting lines `first` up to `i` leaves the later lines, the settings, the
/// cursor's line, and a cursor or selection end on a line not yet reached, as they
/// were.
proof fn lemma_indent_frame(st: EditorView, first: int, i: int)
    requires
        0 <= first <= i <= st.lines.len(),
    ensures
        indent_upto(st, first, i).lines.len() == st.lines.len(),
        forall|j: int| i <= j < st.lines.len() ==> #[trigger] indent_upto(st, first, i).lines[j] == st.lines[j],
        indent_upto(st, first, i).tab_width == st.tab_width,
        indent_upto(st, first, i).auto_indent == st.auto_indent,
        indent_upto(st, first, i).cursor_moved == st.cursor_moved,
        indent_upto(st, first, i).cursor.line == st.cursor.line,
        st.cursor.line >= i ==> indent_upto(st, first, i).cursor == st.cursor,
        (st.selection matches Selection::Normal(c) ==> c.line >= i)
            && (st.selection matches Selection::Line(c) ==> c.line >= i)
            ==> indent_upto(st, first, i).selection == st.selection,
    decreases i - first,
{
    if i > first {
        lemma_indent_frame(st, first, i - 1);
    }
}

/// The line of a selection's end, if it has one.
pub open spec fn selection_line(sel: Selection) -> Option<usize> {
    match sel {
        Selection::Normal(c) => Some(c.line),
        Selection::Line(c) => Some(c.line),
        Selection::Empty => None,
    }
}

/// Indenting keeps the line of the selection's end; an end on a line not yet reached
/// is as it was.
proof fn lemma_indent_selection_line(st: EditorView, first: int, i: int)
    requires
        0 <= first <= i <= st.lines.len(),
    ensures
        selection_line(indent_upto(st, first, i).selection) == selection_line(st.selection),
        (selection_line(st.selection) matches Some(l) && l >= i) ==> indent_upto(st, first, i).selection == st.selection,
    decreases i - first,
{
    if i > first {
        lemma_indent_selection_line(st, first, i - 1);
    }
}

/// Unindenting keeps the line of the selection's end; an end on a line not yet
/// reached is as it was.
proof fn lemma_unindent_selection_line(st: EditorView, first: int, i: int)
    requires
        0 <= first <= i <= st.lines.len(),
    ensures
        selection_line(unindent_upto(st, first, i).selection) == selection_line(st.selection),
        (selection_line(st.selection) matches Some(l) && l >= i) ==> unindent_upto(st, first, i).selection == st.selection,
    decreases i - first,
{
    if i > first {
        lemma_unindent_selection_line(st, first, i - 1);
    }
}

/// Unindenting lines `first` up to `i` leaves the later lines, the settings, the
/// cursor's line, and a cursor or selection end on a line not yet reached, as they
/// were.
proof fn lemma_unindent_frame(st: EditorView, first: int, i: int)
    requires
        0 <= first <= i <= st.lines.len(),
    ensures
        unindent_upto(st, first, i).lines.len() == st.lines.len(),
        forall|j: int| i <= j < st.lines.len() ==> #[trigger] unindent_upto(st, first, i).lines[j] == st.lines[j],
        unindent_upto(st, first, i).tab_width == st.tab_width,
        unindent_upto(st, first, i).auto_indent == st.auto_indent,
        unindent_upto(st, first, i).cursor_moved == st.cursor_moved,
        unindent_upto(st, first, i).cursor.line == st.cursor.line,
        st.cursor.line >= i ==> unindent_upto(st, first, i).cursor == st.cursor,
        (st.selection matches Selection::Normal(c) ==> c.line >= i)
            && (st.selection matches Selection::Line(c) ==> c.line >= i)
            ==> unindent_upto(st, first, i).selection == st.selection,
    decreases i - first,
{
    if i > first {
        lemma_unindent_frame(st, first, i - 1);
        let prev = unindent_upto(st, first, i - 1);
        let t = prev.lines[i - 1].text;
        let li = last_indent(t, prev.tab_width as nat);
        let aw = after_whitespace(t);
        if li != aw {
            let s = Cursor { line: (i - 1) as usize, index: li as usize, affinity: Affinity::Before };
            let e = Cursor { line: (i - 1) as usize, index: aw as usize, affinity: Affinity::Before };
            assert forall|j: int| i <= j < st.lines.len() implies #[trigger] unindent_upto(st, first, i).lines[j] == st.lines[j] by {
                assert(spec_delete(prev.lines, s, e)[j] == prev.lines[j]);
            }
        }
    }
}

/// The parts of `data` between its newlines.
fn split_segments(data: &str) -> (segs: Vec<String>)
    ensures
        segs@.map_values(|x: String| x@) == text_segments(data@),
{
    let ghost d = data@;
    let mut segs: Vec<String> = Vec::new();
    let mut cur = String::new();
    for c in it: data.chars()
        invariant
            it.seq() == d,
            segs@.map_values(|x: String| x@).push(cur@) == text_segments(d.take(it.index() as int)),
    {
        let ghost k = it.index();
        proof {
            assert(d.take(k + 1).drop_last() =~= d.take(k as int));
            assert(d.take(k + 1).last() == c);
            lemma_segments_nonempty(d.take(k as int));
        }
        if c == '\n' {
            let ghost before = segs@;
            proof {
                lemma_texts_push(segs@, cur);
            }
            segs.push(cur);
            cur = String::new();
            proof {
                assert(segs@.map_values(|x: String| x@).push(cur@) =~= text_segments(d.take(k + 1)));
            }
        } else {
            string_push(&mut cur, c);
            proof {
                assert(segs@.map_values(|x: String| x@).push(cur@) =~= text_segments(d.take(k + 1)));
            }
        }
    }
    proof {
        assert(d.take(d.len() as int) =~= d);
        lemma_texts_push(segs@, cur);
    }
    segs.push(cur);
    segs
}

/// A text without its last character where that is a control character.
fn strip_control_end_text(t: String) -> (r: String)
    ensures
        r@ == strip_control_end(t@),
{
    let mut t = t;
    let ghost before = t@;
    match string_pop(&mut t) {
        Some(c) => {
            if !is_control(c) {
                string_push(&mut t, c);
                assert(t@ =~= before);
            }
        },
        None => {},
    }
    t
}

/// Joins texts with a newline between each two.
fn join_with_newlines(ts: &Vec<String>) -> (s: String)
    ensures
        s@ == join_lines(ts@.map_values(|x: String| x@)),
{
    let ghost tv = ts@.map_values(|x: String| x@);
    let mut s = String::new();
    let mut i: usize = 0;
    while i < ts.len()
        invariant
            i <= ts@.len(),
            tv == ts@.map_values(|x: String| x@),
            s@ == join_lines(tv.take(i as int)),
        decreases ts@.len() - i,
    {
        if i > 0 {
            string_push(&mut s, '\n');
        }
        string_push_str(&mut s, ts[i].as_str());
        proof {
            assert(tv.take(i + 1).drop_last() =~= tv.take(i as int));
            assert(tv.take(i + 1).last() == ts@[i as int]@);
            if i == 0 {
                assert(s@ =~= join_lines(tv.take(1)));
            } else {
                assert(s@ =~= join_lines(tv.take(i as int)) + seq!['\n'] + tv.take(i + 1).last());
            }
        }
        i = i + 1;
    }
    assert(tv.take(ts@.len() as int) =~= tv);
    s
}


/// The document extended with empty lines, each with the last line's ending, until
/// line `line` exists.
pub open spec fn doc_padded(doc: Seq<(Seq<char>, LineEnding)>, line: int) -> Seq<(Seq<char>, LineEnding)> {
    if line < doc.len() {
        doc
    } else {
        doc + Seq::new(
            (line + 1 - doc.len()) as nat,
            |i: int|
                (Seq::<char>::empty(), if doc.len() > 0 {
                    doc.last().1
                } else {
                    LineEnding::Lf
                }),
        )
    }
}

/// The document after one change item.
pub open spec fn doc_step(doc: Seq<(Seq<char>, LineEnding)>, it: ChangeItemView) -> Seq<(Seq<char>, LineEnding)> {
    if it.insert {
        if it.text.len() == 0 {
            doc
        } else {
            spec_insert(doc_padded(doc, it.start.line as int), it.start, it.text)
        }
    } else {
        doc_delete(doc, it.start, it.end)
    }
}

/// The document after change items, in order.
pub open spec fn doc_apply(doc: Seq<(Seq<char>, LineEnding)>, items: Seq<ChangeItemView>) -> Seq<(Seq<char>, LineEnding)>
    decreases items.len(),
{
    if items.len() == 0 {
        doc
    } else {
        doc_step(doc_apply(doc, items.drop_last()), items.last())
    }
}

/// The text and ending of the lines of an insertion agree with `spec_insert`.
proof fn lemma_insert_block_doc(lv1: Seq<LineView>, at: Cursor, d: Seq<char>, block: Seq<LineView>, fin: Seq<LineView>)
    requires
        (at.line as int) < lv1.len(),
        d.len() > 0,
        ({
            let l = at.line as int;
            let t = lv1[l].text;
            let texts = inserted_texts(byte_prefix(t, at.index as int), d, byte_suffix(t, at.index as int));
            &&& block.len() == texts.len()
            &&& forall|i: int| 0 <= i < block.len() ==> (#[trigger] block[i]).text == texts[i]
                && block[i].ending == lv1[l].ending
            &&& fin == lv1.take(l) + block + lv1.skip(l + 1)
        }),
    ensures
        doc_of(fin) == spec_insert(doc_of(lv1), at, d),
{
    let l = at.line as int;
    let t = lv1[l].text;
    let e = lv1[l].ending;
    lemma_segments_nonempty(d);
    let k = text_segments(d).len() - 1;
    let doc = doc_of(lv1);
    assert(doc[l] == (t, e));
    assert(doc_of(fin) =~= spec_insert(doc, at, d)) by {
        assert forall|i: int| 0 <= i < fin.len() implies #[trigger] doc_of(fin)[i] == spec_insert(doc, at, d)[i] by {
            if i < l {
            } else if i <= l + k {
                assert(fin[i] == block[i - l]);
            } else {
                assert(fin[i] == lv1[i - k]);
            }
        }
    }
}

/// One applicable item changes the document as `doc_step` says.
proof fn lemma_item_doc(prev: Seq<LineView>, cursor: Cursor, it: ChangeItemView)
    requires
        if it.insert {
            insertable(prev, it.start, it.text)
        } else {
            deletable(prev, it.start, it.end)
        },
    ensures
        doc_of(
            (if it.insert {
                apply_insert(prev, it.start, it.text)
            } else {
                (spec_delete(prev, it.start, it.end), it.start)
            }).0,
        ) == doc_step(doc_of(prev), it),
{
    if it.insert {
        let at = it.start;
        let d = it.text;
        if d.len() > 0 {
            let l = at.line as int;
            let padl = padded(prev, l, None);
            assert(doc_of(padl) =~= doc_padded(doc_of(prev), l));
            assert(at_char_boundary(padl[l].text, at.index as int)) by {
                if l >= prev.len() {
                    assert(padl[l] == padding_line(prev, None));
                    assert(vstd::utf8::encode_utf8(Seq::<char>::empty()) =~= Seq::<u8>::empty()) by {
                        vstd::utf8::encode_utf8_decode_utf8(Seq::<char>::empty());
                    }
                }
            }
            let blk = insert_block(padl[l], at.index as int, d, None);
            lemma_block_texts(padl[l], at.index as int, d, None);
            lemma_insert_block_doc(padl, at, d, blk, apply_insert(prev, at, d).0);
        }
    } else {
        lemma_delete_doc(prev, it.start, it.end);
    }
}

/// Applicable items change the document as `doc_apply` says.
proof fn lemma_apply_items_doc(lines: Seq<LineView>, cursor: Cursor, items: Seq<ChangeItemView>)
    requires
        items_applicable(lines, cursor, items),
    ensures
        doc_of(apply_items(lines, cursor, items).0) == doc_apply(doc_of(lines), items),
    decreases items.len(),
{
    if items.len() > 0 {
        lemma_apply_items_doc(lines, cursor, items.drop_last());
        let prev = apply_items(lines, cursor, items.drop_last());
        lemma_item_doc(prev.0, prev.1, items.last());
    }
}

/// Applying one item and then others is applying them all in turn.
proof fn lemma_doc_apply_first(doc: Seq<(Seq<char>, LineEnding)>, a: ChangeItemView, s: Seq<ChangeItemView>)
    ensures
        doc_apply(doc, seq![a] + s) == doc_apply(doc_step(doc, a), s),
    decreases s.len(),
{
    let t = seq![a] + s;
    if s.len() == 0 {
        assert(t.drop_last() =~= Seq::<ChangeItemView>::empty());
        assert(t.last() == a);
        assert(doc_apply(doc, t.drop_last()) == doc);
        assert(doc_apply(doc, t) == doc_step(doc, a));
    } else {
        lemma_doc_apply_first(doc, a, s.drop_last());
        assert(t.drop_last() =~= seq![a] + s.drop_last());
        assert(t.last() == s.last());
        assert(doc_apply(doc, t) == doc_step(doc_apply(doc, t.drop_last()), t.last()));
    }
}

/// Reversed items undo items when each item is undone by its reverse where it
/// applies.
proof fn lemma_doc_reverse_undoes(doc: Seq<(Seq<char>, LineEnding)>, items: Seq<ChangeItemView>)
    requires
        forall|k: int|
            0 <= k < items.len() ==> doc_step(
                doc_step(#[trigger] doc_apply(doc, items.take(k)), items[k]),
                reversed_item(items[k]),
            ) == doc_apply(doc, items.take(k)),
    ensures
        doc_apply(doc_apply(doc, items), reversed_change(items)) == doc,
    decreases items.len(),
{
    if items.len() > 0 {
        let n = items.len() - 1;
        let init = items.drop_last();
        assert forall|k: int| 0 <= k < init.len() implies doc_step(
            doc_step(#[trigger] doc_apply(doc, init.take(k)), init[k]),
            reversed_item(init[k]),
        ) == doc_apply(doc, init.take(k)) by {
            assert(init.take(k) =~= items.take(k));
            assert(doc_apply(doc, items.take(k)) == doc_apply(doc, init.take(k)));
        }
        lemma_doc_reverse_undoes(doc, init);
        assert(items.take(n) =~= init);
        assert(doc_apply(doc, items.take(n)) == doc_apply(doc, init));
        assert(reversed_change(items) =~= seq![reversed_item(items.last())] + reversed_change(init));
        lemma_doc_apply_first(doc_apply(doc, items), reversed_item(items.last()), reversed_change(init));
    } else {
        assert(reversed_change(items) =~= Seq::<ChangeItemView>::empty());
    }
}

/// Undoing a change: applying its items and then the items of its reverse gives the
/// document back, when each item is undone by its reverse where it applies (as an
/// insertion is by deleting what it inserted, and a deletion by inserting what it
/// deleted).
pub proof fn lemma_reversed_change_undoes(lines: Seq<LineView>, cursor: Cursor, items: Seq<ChangeItemView>)
    requires
        items_applicable(lines, cursor, items),
        ({
            let done = apply_items(lines, cursor, items);
            items_applicable(done.0, done.1, reversed_change(items))
        }),
        forall|k: int|
            0 <= k < items.len() ==> doc_step(
                doc_step(#[trigger] doc_apply(doc_of(lines), items.take(k)), items[k]),
                reversed_item(items[k]),
            ) == doc_apply(doc_of(lines), items.take(k)),
    ensures
        ({
            let done = apply_items(lines, cursor, items);
            doc_of(apply_items(done.0, done.1, reversed_change(items)).0) == doc_of(lines)
        }),
{
    let done = apply_items(lines, cursor, items);
    lemma_apply_items_doc(lines, cursor, items);
    lemma_apply_items_doc(done.0, done.1, reversed_change(items));
    lemma_doc_reverse_undoes(doc_of(lines), items);
}

/// The editor, as values, is its parts.
pub proof fn lemma_state_parts(e: &Editor)
    ensures
        e.state() == (EditorView {
            lines: e.lines_view(),
            cursor: e.cursor_view(),
            selection: e.selection_view(),
            cursor_moved: e.cursor_moved_view(),
            auto_indent: e.auto_indent_view(),
            change: e.change_view(),
            tab_width: e.tab_width_view(),
            cursor_x: e.cursor_x_view(),
        }),
{
}

} // verus!
