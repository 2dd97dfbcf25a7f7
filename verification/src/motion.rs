//! Cursor motions that need only the text of the lines: by grapheme cluster, by word,
//! left and right following a line's direction, to either end of a line or of the
//! document, and to the first non-whitespace character of a line.

use vstd::prelude::*;

use crate::bidi_para::{first_paragraph_rtl, first_strong_is, paragraph_direction};
use crate::buffer_line::{BufferLine, LineView};
use crate::edit::{Action, Affinity, Cursor};
use crate::strings::{
    byte_len, grapheme_indices, grapheme_pieces, pieces_cover, pieces_within, text_len, word_indices,
    word_pieces, cluster_end_at, clusters_split, word_edge_at, words_unsplit,
};

verus! {

/// Pieces handed out as owned strings, as values.
pub open spec fn piece_views(v: Seq<(usize, String)>) -> Seq<(usize, Seq<char>)> {
    v.map_values(|p: (usize, String)| (p.0, p.1@))
}

/// Walking the pieces in order while they start before `index`: the start of the
/// last one walked, `prev` if none is.
pub open spec fn start_before_from(ps: Seq<(usize, Seq<char>)>, index: usize, prev: usize) -> usize
    decreases ps.len(),
{
    if ps.len() == 0 || ps[0].0 >= index {
        prev
    } else {
        start_before_from(ps.drop_first(), index, ps[0].0)
    }
}

/// The start of the grapheme cluster before byte `index`: the last of the leading
/// clusters that start before it, else 0.
pub open spec fn start_before(ps: Seq<(usize, Seq<char>)>, index: usize) -> usize {
    start_before_from(ps, index, 0)
}

/// The first piece that starts exactly at byte `index`.
pub open spec fn piece_at(ps: Seq<(usize, Seq<char>)>, index: usize) -> Option<(usize, Seq<char>)>
    decreases ps.len(),
{
    if ps.len() == 0 {
        None
    } else if ps[0].0 == index {
        Some(ps[0])
    } else {
        piece_at(ps.drop_first(), index)
    }
}

/// Walking the words from the last: the start of the first one that starts before
/// byte `index`, else 0.
pub open spec fn word_start_before(ws: Seq<(usize, Seq<char>)>, index: usize) -> usize
    decreases ws.len(),
{
    if ws.len() == 0 {
        0
    } else if ws.last().0 < index {
        ws.last().0
    } else {
        word_start_before(ws.drop_last(), index)
    }
}

/// Walking the words from the first: the end of the first one that ends after byte
/// `index`, else `len`.
pub open spec fn word_end_after(ws: Seq<(usize, Seq<char>)>, index: usize, len: usize) -> usize
    decreases ws.len(),
{
    if ws.len() == 0 {
        len
    } else if ws[0].0 + byte_len(ws[0].1) > index {
        (ws[0].0 + byte_len(ws[0].1)) as usize
    } else {
        word_end_after(ws.drop_first(), index, len)
    }
}

/// Where a soft home goes: the first character that is not whitespace, else the
/// start of the line.
pub open spec fn soft_home_index(t: Seq<char>) -> nat {
    if crate::text_editor::leading_whitespace(t).len() < t.len() {
        crate::text_editor::after_whitespace(t)
    } else {
        0
    }
}

/// The motions that the text alone decides.
pub open spec fn is_text_motion(m: Action) -> bool {
    match m {
        Action::Previous | Action::Next | Action::SoftHome | Action::ParagraphStart
        | Action::ParagraphEnd | Action::PreviousWord | Action::NextWord | Action::BufferStart
        | Action::BufferEnd => true,
        _ => false,
    }
}

/// Where a text motion takes the cursor, `None` where the cursor's line is missing.
pub open spec fn spec_motion(lines: Seq<LineView>, c: Cursor, m: Action) -> Option<Cursor> {
    let t = lines[c.line as int].text;
    match m {
        Action::ParagraphStart => Some(Cursor { index: 0, ..c }),
        Action::BufferStart => Some(Cursor { line: 0, index: 0, ..c }),
        Action::BufferEnd => Some(
            Cursor { line: (lines.len() - 1) as usize, index: byte_len(lines.last().text) as usize, ..c },
        ),
        _ => if c.line >= lines.len() {
            None
        } else {
            match m {
                Action::Previous => Some(
                    if c.index > 0 {
                        Cursor { index: start_before(grapheme_pieces(t), c.index), affinity: Affinity::After, ..c }
                    } else if c.line > 0 {
                        Cursor {
                            line: (c.line - 1) as usize,
                            index: byte_len(lines[c.line - 1].text) as usize,
                            affinity: Affinity::After,
                        }
                    } else {
                        c
                    },
                ),
                Action::Next => Some(
                    if c.index < byte_len(t) {
                        match piece_at(grapheme_pieces(t), c.index) {
                            Some((off, g)) => Cursor {
                                index: (off + byte_len(g)) as usize,
                                affinity: Affinity::Before,
                                ..c
                            },
                            None => c,
                        }
                    } else if c.line + 1 < lines.len() {
                        Cursor { line: (c.line + 1) as usize, index: 0, affinity: Affinity::Before }
                    } else {
                        c
                    },
                ),
                Action::SoftHome => Some(Cursor { index: soft_home_index(t) as usize, ..c }),
                Action::ParagraphEnd => Some(Cursor { index: byte_len(t) as usize, ..c }),
                Action::PreviousWord => Some(
                    if c.index > 0 {
                        Cursor { index: word_start_before(word_pieces(t), c.index), ..c }
                    } else if c.line > 0 {
                        Cursor { line: (c.line - 1) as usize, index: byte_len(lines[c.line - 1].text) as usize, ..c }
                    } else {
                        c
                    },
                ),
                Action::NextWord => Some(
                    if c.index < byte_len(t) {
                        Cursor { index: word_end_after(word_pieces(t), c.index, byte_len(t) as usize), ..c }
                    } else if c.line + 1 < lines.len() {
                        Cursor { line: (c.line + 1) as usize, index: 0, ..c }
                    } else {
                        c
                    },
                ),
                _ => None,
            }
        },
    }
}

/// The start of the grapheme cluster before byte `index`, given the clusters of a
/// line: the last of the leading clusters that start before it, else 0.
pub fn previous_grapheme_start(pieces: &Vec<(usize, String)>, index: usize) -> (r: usize)
    ensures
        r == start_before(piece_views(pieces@), index),
{
    let ghost ps = piece_views(pieces@);
    let mut prev: usize = 0;
    let mut i: usize = 0;
    proof {
        assert(ps.skip(0) =~= ps);
    }
    while i < pieces.len()
        invariant
            i <= pieces@.len(),
            ps == piece_views(pieces@),
            start_before_from(ps.skip(i as int), index, prev) == start_before(ps, index),
        decreases pieces@.len() - i,
    {
        let start = pieces[i].0;
        proof {
            assert(ps.skip(i as int)[0] == ps[i as int]);
            assert(ps.skip(i as int).drop_first() =~= ps.skip(i + 1));
        }
        if start < index {
            prev = start;
        } else {
            return prev;
        }
        i = i + 1;
    }
    proof {
        assert(ps.skip(i as int).len() == 0);
    }
    prev
}

/// The end of the grapheme cluster that starts at byte `index`, given the clusters of
/// a line; `None` where no cluster starts there.
pub fn next_grapheme_end(pieces: &Vec<(usize, String)>, index: usize) -> (r: Option<usize>)
    requires
        forall|k: int| 0 <= k < pieces@.len() ==> (#[trigger] pieces@[k]).0 + byte_len(pieces@[k].1@) <= usize::MAX,
    ensures
        r == match piece_at(piece_views(pieces@), index) {
            Some((off, g)) => Some((off + byte_len(g)) as usize),
            None => None::<usize>,
        },
{
    let ghost ps = piece_views(pieces@);
    let mut i: usize = 0;
    proof {
        assert(ps.skip(0) =~= ps);
    }
    while i < pieces.len()
        invariant
            i <= pieces@.len(),
            ps == piece_views(pieces@),
            forall|k: int| 0 <= k < pieces@.len() ==> (#[trigger] pieces@[k]).0 + byte_len(pieces@[k].1@) <= usize::MAX,
            piece_at(ps.skip(i as int), index) == piece_at(ps, index),
        decreases pieces@.len() - i,
    {
        proof {
            assert(ps.skip(i as int)[0] == ps[i as int]);
            assert(ps.skip(i as int).drop_first() =~= ps.skip(i + 1));
        }
        if pieces[i].0 == index {
            let n = text_len(&pieces[i].1);
            proof {
                assert(pieces@[i as int].0 + byte_len(pieces@[i as int].1@) <= usize::MAX);
            }
            return Some(pieces[i].0 + n);
        }
        i = i + 1;
    }
    proof {
        assert(ps.skip(i as int).len() == 0);
    }
    None
}

/// Where moving to the previous word boundary lands, given the words of a line: the
/// start of the last word that starts before byte `index`, else 0.
pub fn previous_word_start(words: &Vec<(usize, String)>, index: usize) -> (r: usize)
    ensures
        r == word_start_before(piece_views(words@), index),
{
    let ghost ws = piece_views(words@);
    let mut j: usize = words.len();
    proof {
        assert(ws.take(j as int) =~= ws);
    }
    while j > 0
        invariant
            j <= words@.len(),
            ws == piece_views(words@),
            word_start_before(ws.take(j as int), index) == word_start_before(ws, index),
        decreases j,
    {
        proof {
            assert(ws.take(j as int).last() == ws[j - 1]);
            assert(ws.take(j as int).drop_last() =~= ws.take(j - 1));
        }
        if words[j - 1].0 < index {
            return words[j - 1].0;
        }
        j = j - 1;
    }
    proof {
        assert(ws.take(0).len() == 0);
    }
    0
}

/// Where moving to the next word boundary lands, given the words of a line: the end
/// of the first word that ends after byte `index`, else `len`.
pub fn next_word_end(words: &Vec<(usize, String)>, index: usize, len: usize) -> (r: usize)
    requires
        forall|k: int| 0 <= k < words@.len() ==> (#[trigger] words@[k]).0 + byte_len(words@[k].1@) <= usize::MAX,
    ensures
        r == word_end_after(piece_views(words@), index, len),
{
    let ghost ws = piece_views(words@);
    let mut i: usize = 0;
    proof {
        assert(ws.skip(0) =~= ws);
    }
    while i < words.len()
        invariant
            i <= words@.len(),
            ws == piece_views(words@),
            forall|k: int| 0 <= k < words@.len() ==> (#[trigger] words@[k]).0 + byte_len(words@[k].1@) <= usize::MAX,
            word_end_after(ws.skip(i as int), index, len) == word_end_after(ws, index, len),
        decreases words@.len() - i,
    {
        proof {
            assert(ws.skip(i as int)[0] == ws[i as int]);
            assert(ws.skip(i as int).drop_first() =~= ws.skip(i + 1));
        }
        proof {
            assert(words@[i as int].0 + byte_len(words@[i as int].1@) <= usize::MAX);
        }
        let end = words[i].0 + text_len(&words[i].1);
        if end > index {
            return end;
        }
        i = i + 1;
    }
    proof {
        assert(ws.skip(i as int).len() == 0);
    }
    len
}

/// The piece found at a byte is one of the pieces.
proof fn lemma_piece_at_member(ps: Seq<(usize, Seq<char>)>, index: usize)
    ensures
        piece_at(ps, index) matches Some(x) ==> x.0 == index && exists|k: int|
            0 <= k < ps.len() && #[trigger] ps[k] == x,
    decreases ps.len(),
{
    if ps.len() > 0 && ps[0].0 != index {
        lemma_piece_at_member(ps.drop_first(), index);
        if piece_at(ps, index) is Some {
            let x = piece_at(ps, index)->0;
            let k = choose|k: int| 0 <= k < ps.drop_first().len() && #[trigger] ps.drop_first()[k] == x;
            assert(ps[k + 1] == ps.drop_first()[k]);
        }
    }
}

/// Where walking the words lands: the end of one of them, else `len`.
proof fn lemma_word_end_after_member(ws: Seq<(usize, Seq<char>)>, index: usize, len: usize)
    ensures
        word_end_after(ws, index, len) == len || exists|k: int|
            0 <= k < ws.len() && word_end_after(ws, index, len) == ((#[trigger] ws[k]).0 + byte_len(
                ws[k].1,
            )) as usize,
    decreases ws.len(),
{
    if ws.len() > 0 && ws[0].0 + byte_len(ws[0].1) <= index {
        lemma_word_end_after_member(ws.drop_first(), index, len);
        if word_end_after(ws, index, len) != len {
            let k = choose|k: int|
                0 <= k < ws.drop_first().len() && word_end_after(ws, index, len) == ((
                #[trigger] ws.drop_first()[k]).0 + byte_len(ws.drop_first()[k].1)) as usize;
            assert(ws[k + 1] == ws.drop_first()[k]);
        }
    }
}

/// Where walking the words back lands: the start of one of them, else 0.
proof fn lemma_word_start_before_member(ws: Seq<(usize, Seq<char>)>, index: usize)
    ensures
        word_start_before(ws, index) == 0 || exists|k: int|
            0 <= k < ws.len() && word_start_before(ws, index) == (#[trigger] ws[k]).0,
    decreases ws.len(),
{
    if ws.len() > 0 && ws.last().0 >= index {
        lemma_word_start_before_member(ws.drop_last(), index);
        if word_start_before(ws, index) != 0 {
            let k = choose|k: int|
                0 <= k < ws.drop_last().len() && word_start_before(ws, index) == (
                #[trigger] ws.drop_last()[k]).0;
            assert(ws[k] == ws.drop_last()[k]);
        }
    }
}

/// Apply a motion that the text alone decides to a cursor. The motion forgets the
/// remembered column; `None` where the cursor's line is missing. A step forward by
/// grapheme cluster within a line ends where a cluster may end: never between a
/// carriage return and its line feed, never before a combining mark on a printable
/// ASCII character, and never after a lone regional indicator that another follows.
/// A motion by word within a line stops at the edge of a word, never between two
/// letters or digits.
#[verifier::rlimit(40)]
pub fn cursor_motion(lines: &Vec<BufferLine>, cursor: Cursor, cursor_x_opt: Option<i32>, motion: Action) -> (r: Option<(Cursor, Option<i32>)>)
    requires
        is_text_motion(motion),
        motion == Action::BufferEnd ==> lines@.len() > 0,
    ensures
        r == match spec_motion(lines@.map_values(|l: BufferLine| l@), cursor, motion) {
            Some(c) => Some((c, None::<i32>)),
            None => None,
        },
        motion == Action::Next && (cursor.line as int) < lines@.len() && cursor.index < byte_len(
            lines@[cursor.line as int]@.text,
        ) && r is Some && (r->0).0.index != cursor.index ==> cluster_end_at(
            lines@[cursor.line as int]@.text,
            cursor.index as int,
            (r->0).0.index as int,
        ),
        (motion == Action::NextWord || motion == Action::PreviousWord) && (cursor.line as int)
            < lines@.len() && r is Some && (r->0).0.line == cursor.line ==> word_edge_at(
            lines@[cursor.line as int]@.text,
            (r->0).0.index as int,
        ),
{
    let ghost lv = lines@.map_values(|l: BufferLine| l@);
    let ghost c0 = cursor;
    let mut cursor = cursor;
    match motion {
        Action::ParagraphStart => {
            cursor.index = 0;
            return Some((cursor, None));
        },
        Action::BufferStart => {
            cursor.line = 0;
            cursor.index = 0;
            return Some((cursor, None));
        },
        Action::BufferEnd => {
            cursor.line = lines.len() - 1;
            proof {
                assert(lv[cursor.line as int] == lines@[cursor.line as int]@);
            }
            cursor.index = lines[cursor.line].text().as_bytes().len();
            return Some((cursor, None));
        },
        _ => {},
    }
    if cursor.line >= lines.len() {
        return None;
    }
    proof {
        assert(lv[cursor.line as int] == lines@[cursor.line as int]@);
        if cursor.line > 0 {
            assert(lv[cursor.line - 1] == lines@[cursor.line - 1]@);
        }
    }
    let text = lines[cursor.line].text();
    let len = text.as_bytes().len();
    match motion {
        Action::Previous => {
            if cursor.index > 0 {
                let pieces = grapheme_indices(text);
                cursor.index = previous_grapheme_start(&pieces, cursor.index);
                cursor.affinity = Affinity::After;
            } else if cursor.line > 0 {
                cursor.line = cursor.line - 1;
                cursor.index = lines[cursor.line].text().as_bytes().len();
                cursor.affinity = Affinity::After;
            }
        },
        Action::Next => {
            if cursor.index < len {
                let pieces = grapheme_indices(text);
                proof {
                    let ps = piece_views(pieces@);
                    assert forall|k: int| 0 <= k < pieces@.len() implies (#[trigger] pieces@[k]).0 + byte_len(pieces@[k].1@) <= usize::MAX by {
                        assert(ps[k] == (pieces@[k].0, pieces@[k].1@));
                        crate::text_editor::lemma_grapheme_bounds(ps, text@, k);
                    }
                }
                proof {
                    let ps = piece_views(pieces@);
                    lemma_piece_at_member(ps, cursor.index);
                    if piece_at(ps, cursor.index) is Some {
                        let x = piece_at(ps, cursor.index)->0;
                        let k = choose|k: int| 0 <= k < ps.len() && #[trigger] ps[k] == x;
                        assert(cluster_end_at(text@, ps[k].0 as int, ps[k].0 + byte_len(ps[k].1)));
                    }
                }
                match next_grapheme_end(&pieces, cursor.index) {
                    Some(end) => {
                        assert(cluster_end_at(lines@[c0.line as int]@.text, c0.index as int, end as int));
                        cursor.index = end;
                        cursor.affinity = Affinity::Before;
                    },
                    None => {},
                }
            } else if cursor.line + 1 < lines.len() {
                cursor.line = cursor.line + 1;
                cursor.index = 0;
                cursor.affinity = Affinity::Before;
            }
        },
        Action::SoftHome => {
            // A line with a character other than whitespace needs at least one column
            // of indent at a tab width of one, and none otherwise.
            let (after_ws, needed, _) = crate::text_editor::indent_metrics(text, 1);
            cursor.index = if needed == 0 {
                0
            } else {
                after_ws
            };
        },
        Action::ParagraphEnd => {
            cursor.index = len;
        },
        Action::PreviousWord => {
            if cursor.index > 0 {
                let words = word_indices(text);
                cursor.index = previous_word_start(&words, cursor.index);
                proof {
                    let ws = piece_views(words@);
                    lemma_word_start_before_member(ws, c0.index);
                    if cursor.index != 0 {
                        let k = choose|k: int| 0 <= k < ws.len() && cursor.index == (#[trigger] ws[k]).0;
                        assert(word_edge_at(text@, ws[k].0 as int));
                    }
                }
            } else if cursor.line > 0 {
                cursor.line = cursor.line - 1;
                cursor.index = lines[cursor.line].text().as_bytes().len();
            }
        },
        Action::NextWord => {
            if cursor.index < len {
                let words = word_indices(text);
                proof {
                    let ws = piece_views(words@);
                    assert forall|k: int| 0 <= k < words@.len() implies (#[trigger] words@[k]).0 + byte_len(words@[k].1@) <= usize::MAX by {
                        assert(ws[k] == (words@[k].0, words@[k].1@));
                    }
                }
                cursor.index = next_word_end(&words, cursor.index, len);
                proof {
                    let ws = piece_views(words@);
                    lemma_word_end_after_member(ws, c0.index, len);
                    if cursor.index != len {
                        let k = choose|k: int|
                            0 <= k < ws.len() && cursor.index == ((#[trigger] ws[k]).0 + byte_len(
                                ws[k].1,
                            )) as usize;
                        assert(ws[k] == (words@[k].0, words@[k].1@));
                        assert(word_edge_at(text@, ws[k].0 + byte_len(ws[k].1)));
                    }
                }
            } else if cursor.line + 1 < lines.len() {
                cursor.line = cursor.line + 1;
                cursor.index = 0;
            }
        },
        _ => {},
    }
    Some((cursor, None))
}

/// The motions to the left or the right, by character or by word.
pub open spec fn is_directional_motion(m: Action) -> bool {
    match m {
        Action::Left | Action::Right | Action::LeftWord | Action::RightWord => true,
        _ => false,
    }
}

/// The text motion a motion to the left or the right stands for on a line of the
/// given direction: left goes back in a left-to-right line and forward in a
/// right-to-left one, and right the other way round.
pub open spec fn directed_motion(m: Action, rtl: bool) -> Action {
    match m {
        Action::Left => if rtl { Action::Next } else { Action::Previous },
        Action::Right => if rtl { Action::Previous } else { Action::Next },
        Action::LeftWord => if rtl { Action::NextWord } else { Action::PreviousWord },
        Action::RightWord => if rtl { Action::PreviousWord } else { Action::NextWord },
        _ => m,
    }
}

/// The direction of a line as its shaping finds it: that of its first paragraph,
/// left to right for an empty line; `None` where the line is missing.
pub open spec fn line_rtl(lines: Seq<LineView>, line: usize) -> Option<bool> {
    if (line as int) < lines.len() {
        Some(
            match first_paragraph_rtl(lines[line as int].text) {
                Some(r) => r,
                None => false,
            },
        )
    } else {
        None
    }
}

/// Move the cursor to the left or the right, by character or by word, following the
/// direction of its line; where the line is missing the cursor and the remembered
/// column stay. On a line whose first strong character is a left-to-right letter,
/// left goes back and right forward; on one whose first strong character is a
/// Hebrew or Arabic letter, the other way round.
pub fn directional_motion(lines: &Vec<BufferLine>, cursor: Cursor, cursor_x_opt: Option<i32>, motion: Action) -> (r: Option<(Cursor, Option<i32>)>)
    requires
        is_directional_motion(motion),
    ensures
        r == match line_rtl(lines@.map_values(|l: BufferLine| l@), cursor.line) {
            Some(rtl) => match spec_motion(lines@.map_values(|l: BufferLine| l@), cursor, directed_motion(motion, rtl)) {
                Some(c) => Some((c, None::<i32>)),
                None => None,
            },
            None => Some((cursor, cursor_x_opt)),
        },
        (cursor.line as int) < lines@.len() && first_strong_is(lines@[cursor.line as int]@.text, false)
            ==> r == match spec_motion(lines@.map_values(|l: BufferLine| l@), cursor, directed_motion(motion, false)) {
            Some(c) => Some((c, None::<i32>)),
            None => None,
        },
        (cursor.line as int) < lines@.len() && first_strong_is(lines@[cursor.line as int]@.text, true)
            ==> r == match spec_motion(lines@.map_values(|l: BufferLine| l@), cursor, directed_motion(motion, true)) {
            Some(c) => Some((c, None::<i32>)),
            None => None,
        },
{
    let ghost lv = lines@.map_values(|l: BufferLine| l@);
    if cursor.line >= lines.len() {
        return Some((cursor, cursor_x_opt));
    }
    proof {
        assert(lv[cursor.line as int] == lines@[cursor.line as int]@);
    }
    let rtl = match paragraph_direction(lines[cursor.line].text()) {
        Some(r) => r,
        None => false,
    };
    let m = match motion {
        Action::Left => if rtl { Action::Next } else { Action::Previous },
        Action::Right => if rtl { Action::Previous } else { Action::Next },
        Action::LeftWord => if rtl { Action::NextWord } else { Action::PreviousWord },
        _ => if rtl { Action::PreviousWord } else { Action::NextWord },
    };
    cursor_motion(lines, cursor, cursor_x_opt, m)
}

} // verus!
