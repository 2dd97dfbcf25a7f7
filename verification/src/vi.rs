//! Helpers of the vi mode: selecting what a pair of delimiters or a word encloses
//! around the cursor, searching the lines for a text, finding a character on the
//! cursor's line, and moving by word.

use vstd::prelude::*;
use vstd::utf8::*;

use crate::buffer_line::{BufferLine, LineView};
use crate::edit::{Cursor, Selection};
use crate::strings::{
    at_char_boundary, byte_len, byte_prefix, byte_suffix, char_len, lemma_byte_len_at_least_len,
    lemma_byte_len_push, lemma_byte_len_take, lemma_split_at_boundary, split_at_byte,
    is_whitespace_char,
};
use crate::text_editor::{lemma_state_parts, Editor, EditorView};
use modit::{Word, WordIter};

verus! {

broadcast use vstd::utf8::group_utf8_lib;

/// The bytes a character takes.
pub open spec fn char_bytes(c: char) -> nat {
    encode_scalar(c as u32).len()
}

/// Counting delimiters forward through `cs`, a closing one counted before an opening
/// one: the byte offset of the character at which the closing ones first outnumber
/// the opening ones, with the counts then.
pub open spec fn close_forward(cs: Seq<char>, starts: nat, ends: nat, open: char, close: char) -> (
    Option<(nat, char)>,
    nat,
    nat,
)
    decreases cs.len(),
{
    if cs.len() == 0 {
        (None, starts, ends)
    } else {
        let c = cs[0];
        let st = if c == close {
            starts
        } else if c == open {
            starts + 1
        } else {
            starts
        };
        let en = if c == close {
            ends + 1
        } else {
            ends
        };
        if en > st {
            (Some((0, c)), st, en)
        } else {
            let r = close_forward(cs.drop_first(), st, en, open, close);
            (match r.0 {
                Some((o, ch)) => Some((o + char_bytes(c), ch)),
                None => None,
            }, r.1, r.2)
        }
    }
}

/// Counting delimiters backward through `cs`, an opening one counted before a
/// closing one: the byte offset of the character at which the opening ones first
/// catch up with the closing ones, with the counts then.
pub open spec fn close_backward(cs: Seq<char>, starts: nat, ends: nat, open: char, close: char) -> (
    Option<(nat, char)>,
    nat,
    nat,
)
    decreases cs.len(),
{
    if cs.len() == 0 {
        (None, starts, ends)
    } else {
        let c = cs.last();
        let st = if c == open {
            starts + 1
        } else {
            starts
        };
        let en = if c == open {
            ends
        } else if c == close {
            ends + 1
        } else {
            ends
        };
        if st >= en {
            (Some((byte_len(cs.drop_last()), c)), st, en)
        } else {
            close_backward(cs.drop_last(), st, en, open, close)
        }
    }
}

/// Searching forward from a position for the closing delimiter, line after line: the
/// line and byte index where the object ends (after the delimiter where it is
/// included), with the counts then. Where none is found the search stops at the
/// start of the last line it reached.
pub open spec fn find_end(
    lines: Seq<LineView>,
    line: nat,
    index: nat,
    starts: nat,
    ends: nat,
    open: char,
    close: char,
    with_delims: bool,
) -> (nat, nat, nat, nat)
    decreases lines.len() - line,
{
    let r = close_forward(byte_suffix(lines[line as int].text, index as int), starts, ends, open, close);
    match r.0 {
        Some((o, c)) => (line, index + if with_delims {
            o + char_bytes(c)
        } else {
            o
        }, r.1, r.2),
        None => if line + 1 < lines.len() {
            find_end(lines, line + 1, 0, r.1, r.2, open, close, with_delims)
        } else {
            (line, index, r.1, r.2)
        },
    }
}

/// Searching backward from a position for the opening delimiter, line before line:
/// the line and byte index where the object starts (before the delimiter where it is
/// included).
pub open spec fn find_start(
    lines: Seq<LineView>,
    line: nat,
    index: nat,
    starts: nat,
    ends: nat,
    open: char,
    close: char,
    with_delims: bool,
) -> (nat, nat)
    decreases line,
{
    let r = close_backward(byte_prefix(lines[line as int].text, index as int), starts, ends, open, close);
    match r.0 {
        Some((o, c)) => (line, if with_delims {
            o
        } else {
            o + char_bytes(c)
        }),
        None => if line > 0 {
            find_start(lines, (line - 1) as nat, byte_len(lines[line - 1].text), r.1, r.2, open, close, with_delims)
        } else {
            (line, index)
        },
    }
}

/// What selecting a text object needs: the cursor on a character boundary of a line
/// that exists, in a document of fewer than 2^62 lines, as any that fits in memory is.
pub open spec fn select_in_ok(st: EditorView) -> bool {
    &&& (st.cursor.line as int) < st.lines.len()
    &&& at_char_boundary(st.lines[st.cursor.line as int].text, st.cursor.index as int)
    &&& st.lines.len() < 0x4000_0000_0000_0000
}

/// The editor after selecting a text object: the selection starts where the object
/// starts and the cursor goes where it ends.
pub open spec fn spec_select_in(st: EditorView, open: char, close: char, with_delims: bool) -> EditorView {
    let c = st.cursor;
    let fe = find_end(st.lines, c.line as nat, c.index as nat, 0, 0, open, close, with_delims);
    let end = Cursor { line: fe.0 as usize, index: fe.1 as usize, ..c };
    let fs = find_start(st.lines, c.line as nat, c.index as nat, fe.2, fe.3, open, close, with_delims);
    let start = Cursor { line: fs.0 as usize, index: fs.1 as usize, ..c };
    EditorView { selection: Selection::Normal(start), cursor: end, cursor_moved: st.cursor_moved || end != c, ..st }
}

/// A forward result with its offset moved by `o`.
pub open spec fn shift_found(r: (Option<(nat, char)>, nat, nat), o: nat) -> (Option<(nat, char)>, nat, nat) {
    (match r.0 {
        Some((x, ch)) => Some((x + o, ch)),
        None => None,
    }, r.1, r.2)
}

/// The counts grow by at most one per character.
proof fn lemma_close_forward_counts(cs: Seq<char>, starts: nat, ends: nat, open: char, close: char)
    ensures
        close_forward(cs, starts, ends, open, close).1 + close_forward(cs, starts, ends, open, close).2 <= starts
            + ends + cs.len(),
    decreases cs.len(),
{
    if cs.len() > 0 {
        let c = cs[0];
        let st = if c == close { starts } else if c == open { starts + 1 } else { starts };
        let en = if c == close { ends + 1 } else { ends };
        lemma_close_forward_counts(cs.drop_first(), st, en, open, close);
    }
}

/// The counts grow by at most one per character.
proof fn lemma_close_backward_counts(cs: Seq<char>, starts: nat, ends: nat, open: char, close: char)
    ensures
        close_backward(cs, starts, ends, open, close).1 + close_backward(cs, starts, ends, open, close).2 <= starts
            + ends + cs.len(),
    decreases cs.len(),
{
    if cs.len() > 0 {
        let c = cs.last();
        let st = if c == open { starts + 1 } else { starts };
        let en = if c == open { ends } else if c == close { ends + 1 } else { ends };
        lemma_close_backward_counts(cs.drop_last(), st, en, open, close);
    }
}

/// The forward count through the characters of `text` from byte `from` on.
fn close_forward_from(text: &str, from: usize, starts: u128, ends: u128, open: char, close: char) -> (r: (
    Option<(usize, char)>,
    u128,
    u128,
))
    requires
        at_char_boundary(text@, from as int),
        starts + ends + 0x1_0000_0000_0000_0000 <= u128::MAX,
    ensures
        (match r.0 {
            Some((o, ch)) => Some((o as nat, ch)),
            None => None::<(nat, char)>,
        }, r.1 as nat, r.2 as nat) == close_forward(byte_suffix(text@, from as int), starts as nat, ends as nat, open, close),
        r.1 + r.2 <= starts + ends + 0x1_0000_0000_0000_0000,
        r.0 matches Some((o, ch)) ==> from + o + char_bytes(ch) <= byte_len(text@),
        byte_len(text@) <= usize::MAX,
{
    let text_bytes = text.as_bytes().len();
    let (_, suffix) = split_at_byte(text, from);
    let ghost cs = suffix@;
    let ghost total = close_forward(cs, starts as nat, ends as nat, open, close);
    proof {
        lemma_split_at_boundary(text@, from as int);
        lemma_byte_len_at_least_len(cs);
        lemma_close_forward_counts(cs, starts as nat, ends as nat, open, close);
        assert(cs.skip(0) =~= cs);
        assert(cs.take(0) =~= Seq::<char>::empty());
    }
    let mut st = starts;
    let mut en = ends;
    let mut o: usize = 0;
    for c in it: suffix.chars()
        invariant
            it.seq() == cs,
            cs == byte_suffix(text@, from as int),
            o == byte_len(cs.take(it.index() as int)),
            byte_len(cs) == byte_len(text@) - from,
            byte_len(text@) <= usize::MAX,
            total == close_forward(cs, starts as nat, ends as nat, open, close),
            shift_found(close_forward(cs.skip(it.index() as int), st as nat, en as nat, open, close), o as nat) == total,
            st + en <= starts + ends + it.index(),
            cs.len() <= byte_len(cs),
            starts + ends + 0x1_0000_0000_0000_0000 <= u128::MAX,
    {
        let ghost k = it.index() as int;
        let ghost st0 = st;
        let ghost en0 = en;
        proof {
            assert(cs.skip(k)[0] == c);
            assert(cs.skip(k).drop_first() =~= cs.skip(k + 1));
            assert(cs.take(k + 1) =~= cs.take(k).push(c));
            lemma_byte_len_push(cs.take(k), c);
            lemma_byte_len_take(cs, k + 1);
        }
        if c == close {
            en = en + 1;
        } else if c == open {
            st = st + 1;
        }
        if en > st {
            proof {
                assert(close_forward(cs.skip(k), st0 as nat, en0 as nat, open, close) == (Some((0nat, c)), st as nat, en as nat));
            }
            return (Some((o, c)), st, en);
        }
        proof {
            assert(close_forward(cs.skip(k), st0 as nat, en0 as nat, open, close) == shift_found(
                close_forward(cs.skip(k + 1), st as nat, en as nat, open, close),
                char_bytes(c),
            ));
        }
        o = o + char_len(c);
    }
    proof {
        assert(cs.skip(cs.len() as int).len() == 0);
    }
    (None, st, en)
}

/// The backward count through the characters of `text` before byte `upto`.
fn close_backward_upto(text: &str, upto: usize, starts: u128, ends: u128, open: char, close: char) -> (r: (
    Option<(usize, char)>,
    u128,
    u128,
))
    requires
        at_char_boundary(text@, upto as int),
        starts + ends + 0x1_0000_0000_0000_0000 <= u128::MAX,
    ensures
        (match r.0 {
            Some((o, ch)) => Some((o as nat, ch)),
            None => None::<(nat, char)>,
        }, r.1 as nat, r.2 as nat) == close_backward(byte_prefix(text@, upto as int), starts as nat, ends as nat, open, close),
        r.1 + r.2 <= starts + ends + 0x1_0000_0000_0000_0000,
        r.0 matches Some((o, ch)) ==> o + char_bytes(ch) <= upto,
{
    let (prefix, _) = split_at_byte(text, upto);
    let ghost cs = prefix@;
    proof {
        lemma_split_at_boundary(text@, upto as int);
        lemma_byte_len_at_least_len(cs);
        lemma_close_backward_counts(cs, starts as nat, ends as nat, open, close);
    }
    let mut chars: Vec<char> = Vec::new();
    for c in it: prefix.chars()
        invariant
            it.seq() == cs,
            chars@ == cs.take(it.index() as int),
    {
        proof {
            assert(cs.take(it.index() + 1) =~= cs.take(it.index() as int).push(c));
        }
        chars.push(c);
    }
    proof {
        assert(cs.take(cs.len() as int) =~= cs);
    }
    let mut st = starts;
    let mut en = ends;
    let mut j: usize = chars.len();
    let mut o: usize = upto;
    while j > 0
        invariant
            chars@ == cs,
            cs == byte_prefix(text@, upto as int),
            j <= cs.len(),
            o == byte_len(cs.take(j as int)),
            byte_len(cs) == upto,
            close_backward(cs.take(j as int), st as nat, en as nat, open, close) == close_backward(cs, starts as nat, ends as nat, open, close),
            st + en <= starts + ends + (cs.len() - j),
            cs.len() <= byte_len(cs),
            upto <= usize::MAX,
            starts + ends + 0x1_0000_0000_0000_0000 <= u128::MAX,
        decreases j,
    {
        let c = chars[j - 1];
        let ghost st0 = st;
        let ghost en0 = en;
        let ghost j0 = j as int;
        proof {
            let t = cs.take(j as int);
            assert(t.last() == c);
            assert(t.drop_last() =~= cs.take(j - 1));
            assert(cs.take(j - 1).push(c) =~= t);
            lemma_byte_len_push(cs.take(j - 1), c);
            lemma_byte_len_take(cs, j - 1);
        }
        if c == open {
            st = st + 1;
        } else if c == close {
            en = en + 1;
        }
        o = o - char_len(c);
        j = j - 1;
        if st >= en {
            proof {
                assert(close_backward(cs.take(j0), st0 as nat, en0 as nat, open, close) == (Some((o as nat, c)), st as nat, en as nat));
            }
            return (Some((o, c)), st, en);
        }
        proof {
            assert(close_backward(cs.take(j0), st0 as nat, en0 as nat, open, close) == close_backward(cs.take(j as int), st as nat, en as nat, open, close));
        }
    }
    proof {
        assert(cs.take(0).len() == 0);
    }
    (None, st, en)
}

/// Select what the delimiters `open` and `close` enclose around the cursor (with the
/// delimiters where `with_delims` is set): the largest object that holds the cursor, or
/// where there is none the next one. The selection starts at the object's start and
/// the cursor goes to its end.
pub fn select_in(editor: &mut Editor, open: char, close: char, with_delims: bool)
    requires
        select_in_ok(old(editor).state()),
    ensures
        final(editor).state() == spec_select_in(old(editor).state(), open, close, with_delims),
{
    proof {
        lemma_state_parts(editor);
    }
    let ghost st0 = editor.state();
    let cursor = editor.cursor();
    let lines = editor.lines();
    let ghost lv = st0.lines;
    proof {
        assert(lines@.map_values(|l: BufferLine| l@) == lv);
        assert(lines@.len() == lv.len());
    }
    let n_lines = lines.len();
    let ghost fe = find_end(lv, cursor.line as nat, cursor.index as nat, 0, 0, open, close, with_delims);
    let mut end = cursor;
    let mut starts: u128 = 0;
    let mut ends: u128 = 0;
    let mut done = false;
    while !done
        invariant
            lines@.map_values(|l: BufferLine| l@) == lv,
            lines@.len() == lv.len(),
            n_lines == lv.len(),
            lv.len() < 0x4000_0000_0000_0000,
            cursor.line <= end.line < lv.len(),
            end.affinity == cursor.affinity,
            fe == find_end(lv, cursor.line as nat, cursor.index as nat, 0, 0, open, close, with_delims),
            !done ==> at_char_boundary(lv[end.line as int].text, end.index as int),
            !done ==> find_end(lv, end.line as nat, end.index as nat, starts as nat, ends as nat, open, close, with_delims) == fe,
            !done ==> starts + ends <= (end.line - cursor.line) * 0x1_0000_0000_0000_0000,
            done ==> (end.line as nat, end.index as nat, starts as nat, ends as nat) == fe,
            done ==> starts + ends <= (end.line - cursor.line + 1) * 0x1_0000_0000_0000_0000,
        decreases lv.len() - end.line + if done { 0int } else { 1int },
    {
        proof {
            assert(lv[end.line as int] == lines@[end.line as int]@);
            assert((end.line - cursor.line) * 0x1_0000_0000_0000_0000 <= 0x4000_0000_0000_0000 * 0x1_0000_0000_0000_0000int)
                by (nonlinear_arith)
                requires
                    end.line - cursor.line <= 0x4000_0000_0000_0000;
        }
        let text = lines[end.line].text();
        let r = close_forward_from(text, end.index, starts, ends, open, close);
        starts = r.1;
        ends = r.2;
        proof {
            assert((end.line - cursor.line + 1) * 0x1_0000_0000_0000_0000int == (end.line - cursor.line) * 0x1_0000_0000_0000_0000int
                + 0x1_0000_0000_0000_0000int) by (nonlinear_arith);
        }
        match r.0 {
            Some((o, c)) => {
                end.index = if with_delims {
                    end.index + o + char_len(c)
                } else {
                    end.index + o
                };
                done = true;
            },
            None => {
                if end.line + 1 < n_lines {
                    end.line = end.line + 1;
                    end.index = 0;
                    proof {
                        vstd::utf8::is_char_boundary_start_end_of_seq(encode_utf8(lv[end.line as int].text));
                    }
                } else {
                    done = true;
                }
            },
        }
    }
    let ghost fs = find_start(lv, cursor.line as nat, cursor.index as nat, fe.2, fe.3, open, close, with_delims);
    let mut start = cursor;
    let ghost fwd = (starts + ends) as int;
    done = false;
    proof {
        assert(fwd <= 0x4000_0000_0000_0000 * 0x1_0000_0000_0000_0000int) by (nonlinear_arith)
            requires
                fwd <= (end.line - cursor.line + 1) * 0x1_0000_0000_0000_0000int,
                end.line - cursor.line + 1 <= 0x4000_0000_0000_0000;
    }
    while !done
        invariant
            lines@.map_values(|l: BufferLine| l@) == lv,
            lines@.len() == lv.len(),
            lv.len() < 0x4000_0000_0000_0000,
            start.line <= cursor.line < lv.len(),
            start.affinity == cursor.affinity,
            fwd <= 0x4000_0000_0000_0000 * 0x1_0000_0000_0000_0000int,
            fs == find_start(lv, cursor.line as nat, cursor.index as nat, fe.2, fe.3, open, close, with_delims),
            !done ==> at_char_boundary(lv[start.line as int].text, start.index as int),
            !done ==> find_start(lv, start.line as nat, start.index as nat, starts as nat, ends as nat, open, close, with_delims) == fs,
            !done ==> starts + ends <= fwd + (cursor.line - start.line) * 0x1_0000_0000_0000_0000,
            done ==> (start.line as nat, start.index as nat) == fs,
        decreases start.line + if done { 0int } else { 1int },
    {
        proof {
            assert(lv[start.line as int] == lines@[start.line as int]@);
            assert((cursor.line - start.line) * 0x1_0000_0000_0000_0000 <= 0x4000_0000_0000_0000 * 0x1_0000_0000_0000_0000int)
                by (nonlinear_arith)
                requires
                    cursor.line - start.line <= 0x4000_0000_0000_0000;
        }
        let text = lines[start.line].text();
        let r = close_backward_upto(text, start.index, starts, ends, open, close);
        starts = r.1;
        ends = r.2;
        proof {
            assert((cursor.line - (start.line - 1)) * 0x1_0000_0000_0000_0000int == (cursor.line - start.line)
                * 0x1_0000_0000_0000_0000int + 0x1_0000_0000_0000_0000int) by (nonlinear_arith);
        }
        match r.0 {
            Some((o, c)) => {
                start.index = if with_delims {
                    o
                } else {
                    o + char_len(c)
                };
                done = true;
            },
            None => {
                if start.line > 0 {
                    start.line = start.line - 1;
                    proof {
                        assert(lv[start.line as int] == lines@[start.line as int]@);
                        vstd::utf8::is_char_boundary_start_end_of_seq(encode_utf8(lv[start.line as int].text));
                    }
                    start.index = lines[start.line].text().as_bytes().len();
                } else {
                    done = true;
                }
            },
        }
    }
    editor.set_selection(Selection::Normal(start));
    editor.set_cursor(end);
    proof {
        lemma_state_parts(editor);
    }
}

/// The starts of the matches of the bytes `p` in `t` from byte `i` on, leftmost
/// first, each match taking its bytes out of the search.
pub open spec fn forward_matches(t: Seq<u8>, p: Seq<u8>, i: int) -> Seq<int>
    decreases t.len() - i,
{
    if p.len() == 0 || i < 0 || i + p.len() > t.len() {
        Seq::empty()
    } else if t.subrange(i, i + p.len()) == p {
        seq![i] + forward_matches(t, p, i + p.len())
    } else {
        forward_matches(t, p, i + 1)
    }
}

/// The starts of the matches of the bytes `p` in `t` before byte `j`, rightmost
/// first, each match taking its bytes out of the search.
pub open spec fn backward_matches(t: Seq<u8>, p: Seq<u8>, j: int) -> Seq<int>
    decreases j,
{
    if p.len() == 0 || j < p.len() || j > t.len() {
        Seq::empty()
    } else if t.subrange(j - p.len(), j) == p {
        seq![j - p.len()] + backward_matches(t, p, j - p.len())
    } else {
        backward_matches(t, p, j - 1)
    }
}

/// Where `pat` matches in `text`, as byte offsets from the start: every character
/// boundary for an empty pattern, else the matches that do not overlap, leftmost
/// first.
pub open spec fn match_starts(text: Seq<char>, pat: Seq<char>) -> Seq<int> {
    if pat.len() == 0 {
        Seq::new(text.len() + 1, |k: int| byte_len(text.take(k)) as int)
    } else {
        forward_matches(encode_utf8(text), encode_utf8(pat), 0)
    }
}

/// Where `pat` matches in `text`, from the end: every character boundary from the
/// last for an empty pattern, else the matches that do not overlap, rightmost first.
pub open spec fn rmatch_starts(text: Seq<char>, pat: Seq<char>) -> Seq<int> {
    if pat.len() == 0 {
        Seq::new(text.len() + 1, |k: int| byte_len(text.take(text.len() - k)) as int)
    } else {
        backward_matches(encode_utf8(text), encode_utf8(pat), encode_utf8(text).len() as int)
    }
}

/// `str::match_indices`: the byte offsets of the matches of `pat` in `text`. For
/// matches that would overlap only the first counts, and an empty pattern matches at
/// every character boundary.
#[verifier::external_body]
fn match_indices(text: &str, pat: &str) -> (r: Vec<usize>)
    ensures
        r@.map_values(|i: usize| i as int) == match_starts(text@, pat@),
{
    text.match_indices(pat).map(|(i, _)| i).collect()
}

/// `str::rmatch_indices`: the byte offsets of the matches of `pat` in `text`, from
/// the end. For matches that would overlap only the last counts, and an empty
/// pattern matches at every character boundary.
#[verifier::external_body]
fn rmatch_indices(text: &str, pat: &str) -> (r: Vec<usize>)
    ensures
        r@.map_values(|i: usize| i as int) == rmatch_starts(text@, pat@),
{
    text.rmatch_indices(pat).map(|(i, _)| i).collect()
}

/// The first of `ms` that comes after `after`, where there is a bound.
pub open spec fn first_after(ms: Seq<int>, after: Option<int>) -> Option<int>
    decreases ms.len(),
{
    if ms.len() == 0 {
        None
    } else if after matches Some(a) && ms[0] <= a {
        first_after(ms.drop_first(), after)
    } else {
        Some(ms[0])
    }
}

/// The first of `ms` that comes before `before`, where there is a bound.
pub open spec fn first_before(ms: Seq<int>, before: Option<int>) -> Option<int>
    decreases ms.len(),
{
    if ms.len() == 0 {
        None
    } else if before matches Some(b) && ms[0] >= b {
        first_before(ms.drop_first(), before)
    } else {
        Some(ms[0])
    }
}

/// Searching forward from line `line` on: the first match after the cursor on its
/// own line, else the first match of a later line.
pub open spec fn search_forward(lines: Seq<LineView>, line: nat, c: Cursor, pat: Seq<char>) -> Option<(nat, int)>
    decreases lines.len() - line,
{
    if line >= lines.len() {
        None
    } else {
        let bound = if line == c.line {
            Some(c.index as int)
        } else {
            None
        };
        match first_after(match_starts(lines[line as int].text, pat), bound) {
            Some(i) => Some((line, i)),
            None => search_forward(lines, line + 1, c, pat),
        }
    }
}

/// Searching backward from line `line` down: the last match before the cursor on its
/// own line, else the last match of an earlier line.
pub open spec fn search_backward(lines: Seq<LineView>, line: nat, c: Cursor, pat: Seq<char>) -> Option<(nat, int)>
    decreases line,
{
    let bound = if line == c.line {
        Some(c.index as int)
    } else {
        None
    };
    match first_before(rmatch_starts(lines[line as int].text, pat), bound) {
        Some(i) => Some((line, i)),
        None => if line > 0 {
            search_backward(lines, (line - 1) as nat, c, pat)
        } else {
            None
        },
    }
}

/// Where a search moves the cursor, if it finds anything.
pub open spec fn search_result(st: EditorView, pat: Seq<char>, forwards: bool) -> Option<(nat, int)> {
    if forwards {
        search_forward(st.lines, st.cursor.line as nat, st.cursor, pat)
    } else {
        search_backward(st.lines, st.cursor.line as nat, st.cursor, pat)
    }
}

/// The editor after a search: the cursor at the match found, else as it was.
pub open spec fn spec_search(st: EditorView, pat: Seq<char>, forwards: bool) -> EditorView {
    match search_result(st, pat, forwards) {
        Some((l, i)) => {
            let c = Cursor { line: l as usize, index: i as usize, ..st.cursor };
            EditorView { cursor: c, cursor_moved: st.cursor_moved || c != st.cursor, ..st }
        },
        None => st,
    }
}

/// Each forward match is an occurrence of `p` in `t` at or after `i`.
proof fn lemma_forward_matches_occur(t: Seq<u8>, p: Seq<u8>, i: int)
    ensures
        forall|k: int|
            0 <= k < forward_matches(t, p, i).len() ==> {
                let m = #[trigger] forward_matches(t, p, i)[k];
                &&& i <= m
                &&& m + p.len() <= t.len()
                &&& t.subrange(m, m + p.len()) == p
            },
    decreases t.len() - i,
{
    if p.len() == 0 || i < 0 || i + p.len() > t.len() {
    } else if t.subrange(i, i + p.len()) == p {
        lemma_forward_matches_occur(t, p, i + p.len());
        let r = forward_matches(t, p, i + p.len());
        assert forall|k: int| 0 <= k < forward_matches(t, p, i).len() implies {
            let m = #[trigger] forward_matches(t, p, i)[k];
            &&& i <= m
            &&& m + p.len() <= t.len()
            &&& t.subrange(m, m + p.len()) == p
        } by {
            assert(forward_matches(t, p, i) == seq![i] + r);
            if k > 0 {
                assert(forward_matches(t, p, i)[k] == r[k - 1]);
            }
        }
    } else {
        lemma_forward_matches_occur(t, p, i + 1);
        assert(forward_matches(t, p, i) == forward_matches(t, p, i + 1));
    }
}

/// Each backward match is an occurrence of `p` in `t` that ends at or before `j`.
proof fn lemma_backward_matches_occur(t: Seq<u8>, p: Seq<u8>, j: int)
    ensures
        forall|k: int|
            0 <= k < backward_matches(t, p, j).len() ==> {
                let m = #[trigger] backward_matches(t, p, j)[k];
                &&& 0 <= m
                &&& m + p.len() <= j
                &&& j <= t.len()
                &&& t.subrange(m, m + p.len()) == p
            },
    decreases j,
{
    if p.len() == 0 || j < p.len() || j > t.len() {
    } else if t.subrange(j - p.len(), j) == p {
        lemma_backward_matches_occur(t, p, j - p.len());
        let r = backward_matches(t, p, j - p.len());
        assert forall|k: int| 0 <= k < backward_matches(t, p, j).len() implies {
            let m = #[trigger] backward_matches(t, p, j)[k];
            &&& 0 <= m
            &&& m + p.len() <= j
            &&& j <= t.len()
            &&& t.subrange(m, m + p.len()) == p
        } by {
            assert(backward_matches(t, p, j) == seq![j - p.len()] + r);
            if k > 0 {
                assert(backward_matches(t, p, j)[k] == r[k - 1]);
            }
        }
    } else {
        lemma_backward_matches_occur(t, p, j - 1);
        assert(backward_matches(t, p, j) == backward_matches(t, p, j - 1));
    }
}

/// What `first_after` picks is one of `ms`, past the bound.
proof fn lemma_first_after_member(ms: Seq<int>, after: Option<int>)
    ensures
        first_after(ms, after) matches Some(x) ==> {
            &&& exists|k: int| 0 <= k < ms.len() && ms[k] == x
            &&& after matches Some(a) ==> x > a
        },
    decreases ms.len(),
{
    if ms.len() > 0 {
        lemma_first_after_member(ms.drop_first(), after);
        if let Some(x) = first_after(ms.drop_first(), after) {
            if after matches Some(a) && ms[0] <= a {
                let k = choose|k: int| 0 <= k < ms.drop_first().len() && ms.drop_first()[k] == x;
                assert(ms[k + 1] == x);
            }
        }
        if !(after matches Some(a) && ms[0] <= a) {
            assert(ms[0] == ms[0]);
        }
    }
}

/// What `first_before` picks is one of `ms`, before the bound.
proof fn lemma_first_before_member(ms: Seq<int>, before: Option<int>)
    ensures
        first_before(ms, before) matches Some(x) ==> {
            &&& exists|k: int| 0 <= k < ms.len() && ms[k] == x
            &&& before matches Some(b) ==> x < b
        },
    decreases ms.len(),
{
    if ms.len() > 0 {
        lemma_first_before_member(ms.drop_first(), before);
        if let Some(x) = first_before(ms.drop_first(), before) {
            if before matches Some(b) && ms[0] >= b {
                let k = choose|k: int| 0 <= k < ms.drop_first().len() && ms.drop_first()[k] == x;
                assert(ms[k + 1] == x);
            }
        }
        if !(before matches Some(b) && ms[0] >= b) {
            assert(ms[0] == ms[0]);
        }
    }
}

/// The text `pat` occurs in `text` at byte `i`.
pub open spec fn occurs_at(text: Seq<char>, pat: Seq<char>, i: int) -> bool {
    &&& 0 <= i
    &&& i + encode_utf8(pat).len() <= encode_utf8(text).len()
    &&& encode_utf8(text).subrange(i, i + encode_utf8(pat).len()) == encode_utf8(pat)
}

/// A forward search from line `line` on lands on an occurrence, on that line or a
/// later one, past the cursor when on the cursor's line.
proof fn lemma_search_forward_occurs(lines: Seq<LineView>, line: nat, c: Cursor, pat: Seq<char>)
    requires
        pat.len() > 0,
    ensures
        search_forward(lines, line, c, pat) matches Some((l, i)) ==> {
            &&& line <= l < lines.len()
            &&& l == c.line ==> i > c.index
            &&& occurs_at(lines[l as int].text, pat, i)
        },
    decreases lines.len() - line,
{
    if line < lines.len() {
        let t = lines[line as int].text;
        let bound = if line == c.line {
            Some(c.index as int)
        } else {
            None
        };
        let ms = match_starts(t, pat);
        lemma_first_after_member(ms, bound);
        lemma_forward_matches_occur(encode_utf8(t), encode_utf8(pat), 0);
        assert(encode_utf8(pat).len() > 0) by {
            lemma_byte_len_at_least_len(pat);
        }
        if first_after(ms, bound) is None {
            lemma_search_forward_occurs(lines, line + 1, c, pat);
        }
    }
}

/// A backward search from line `line` down lands on an occurrence, on that line or
/// an earlier one, before the cursor when on the cursor's line.
proof fn lemma_search_backward_occurs(lines: Seq<LineView>, line: nat, c: Cursor, pat: Seq<char>)
    requires
        pat.len() > 0,
        line < lines.len(),
    ensures
        search_backward(lines, line, c, pat) matches Some((l, i)) ==> {
            &&& l <= line
            &&& l == c.line ==> i < c.index
            &&& occurs_at(lines[l as int].text, pat, i)
        },
    decreases line,
{
    let t = lines[line as int].text;
    let bound = if line == c.line {
        Some(c.index as int)
    } else {
        None
    };
    let ms = rmatch_starts(t, pat);
    lemma_first_before_member(ms, bound);
    lemma_backward_matches_occur(encode_utf8(t), encode_utf8(pat), encode_utf8(t).len() as int);
    assert(encode_utf8(pat).len() > 0) by {
        lemma_byte_len_at_least_len(pat);
    }
    if first_before(ms, bound) is None && line > 0 {
        lemma_search_backward_occurs(lines, (line - 1) as nat, c, pat);
    }
}

/// A search for a non-empty text puts the cursor on an occurrence of it: searching
/// forward, after the cursor; backward, before it.
pub proof fn lemma_search_lands_on_match(st: EditorView, pat: Seq<char>, forwards: bool)
    requires
        pat.len() > 0,
        search_ok(st, forwards),
    ensures
        search_result(st, pat, forwards) matches Some((l, i)) ==> {
            &&& l < st.lines.len()
            &&& occurs_at(st.lines[l as int].text, pat, i)
            &&& forwards ==> (l > st.cursor.line || (l == st.cursor.line && i > st.cursor.index))
            &&& !forwards ==> (l < st.cursor.line || (l == st.cursor.line && i < st.cursor.index))
        },
{
    if forwards {
        lemma_search_forward_occurs(st.lines, st.cursor.line as nat, st.cursor, pat);
    } else {
        lemma_search_backward_occurs(st.lines, st.cursor.line as nat, st.cursor, pat);
    }
}

/// The first offset in `ms` after `after` where there is a bound.
fn find_after(ms: &Vec<usize>, after: Option<usize>) -> (r: Option<usize>)
    ensures
        (match r {
            Some(i) => Some(i as int),
            None => None::<int>,
        }) == first_after(ms@.map_values(|i: usize| i as int), match after {
            Some(a) => Some(a as int),
            None => None::<int>,
        }),
{
    let ghost v = ms@.map_values(|i: usize| i as int);
    let ghost b = match after {
        Some(a) => Some(a as int),
        None => None::<int>,
    };
    let mut k: usize = 0;
    proof {
        assert(v.skip(0) =~= v);
    }
    while k < ms.len()
        invariant
            k <= ms@.len(),
            v == ms@.map_values(|i: usize| i as int),
            b == (match after {
                Some(a) => Some(a as int),
                None => None::<int>,
            }),
            first_after(v.skip(k as int), b) == first_after(v, b),
        decreases ms@.len() - k,
    {
        proof {
            assert(v.skip(k as int)[0] == ms@[k as int] as int);
            assert(v.skip(k as int).drop_first() =~= v.skip(k + 1));
        }
        let m = ms[k];
        let skip = match after {
            Some(a) => m <= a,
            None => false,
        };
        if !skip {
            return Some(m);
        }
        k = k + 1;
    }
    proof {
        assert(v.skip(k as int).len() == 0);
    }
    None
}

/// The first offset in `ms` before `before` where there is a bound.
fn find_before(ms: &Vec<usize>, before: Option<usize>) -> (r: Option<usize>)
    ensures
        (match r {
            Some(i) => Some(i as int),
            None => None::<int>,
        }) == first_before(ms@.map_values(|i: usize| i as int), match before {
            Some(b) => Some(b as int),
            None => None::<int>,
        }),
{
    let ghost v = ms@.map_values(|i: usize| i as int);
    let ghost b = match before {
        Some(x) => Some(x as int),
        None => None::<int>,
    };
    let mut k: usize = 0;
    proof {
        assert(v.skip(0) =~= v);
    }
    while k < ms.len()
        invariant
            k <= ms@.len(),
            v == ms@.map_values(|i: usize| i as int),
            b == (match before {
                Some(x) => Some(x as int),
                None => None::<int>,
            }),
            first_before(v.skip(k as int), b) == first_before(v, b),
        decreases ms@.len() - k,
    {
        proof {
            assert(v.skip(k as int)[0] == ms@[k as int] as int);
            assert(v.skip(k as int).drop_first() =~= v.skip(k + 1));
        }
        let m = ms[k];
        let skip = match before {
            Some(x) => m >= x,
            None => false,
        };
        if !skip {
            return Some(m);
        }
        k = k + 1;
    }
    proof {
        assert(v.skip(k as int).len() == 0);
    }
    None
}

/// What a search needs: searching backward starts on the cursor's line, which must
/// exist.
pub open spec fn search_ok(st: EditorView, forwards: bool) -> bool {
    !forwards ==> (st.cursor.line as int) < st.lines.len()
}

/// Search the lines for `search`: forward, the first match after the cursor (on the
/// cursor's line, then on the lines after it); backward, the last match before the
/// cursor (on its line, then on the lines before it). The cursor goes to the start
/// of the match found, and stays where nothing is found.
pub fn search(editor: &mut Editor, search: &str, forwards: bool)
    requires
        search_ok(old(editor).state(), forwards),
    ensures
        final(editor).state() == spec_search(old(editor).state(), search@, forwards),
{
    proof {
        lemma_state_parts(editor);
    }
    let ghost st0 = editor.state();
    let mut cursor = editor.cursor();
    let start_line = cursor.line;
    let lines = editor.lines();
    let ghost lv = st0.lines;
    let ghost c0 = cursor;
    let ghost target = search_result(st0, search@, forwards);
    proof {
        assert(lines@.map_values(|l: BufferLine| l@) == lv);
    }
    let n_lines = lines.len();
    let mut found: Option<usize> = None;
    if forwards {
        while cursor.line < n_lines
            invariant_except_break
                found is None,
                search_forward(lv, cursor.line as nat, c0, search@) == target,
            invariant
                lines@.map_values(|l: BufferLine| l@) == lv,
                n_lines == lv.len(),
                start_line == c0.line,
                cursor == (Cursor { line: cursor.line, ..c0 }),
                target == search_result(st0, search@, forwards),
                forwards,
                st0.cursor == c0,
                st0.lines == lv,
            ensures
                found matches Some(i) ==> target == Some((cursor.line as nat, i as int)),
                found is None ==> target is None,
            decreases n_lines - cursor.line,
        {
            proof {
                assert(lv[cursor.line as int] == lines@[cursor.line as int]@);
            }
            let ms = match_indices(lines[cursor.line].text(), search);
            let bound = if cursor.line != start_line {
                None
            } else {
                Some(cursor.index)
            };
            match find_after(&ms, bound) {
                Some(index) => {
                    found = Some(index);
                    break;
                },
                None => {},
            }
            cursor.line = cursor.line + 1;
        }
    } else {
        cursor.line = cursor.line + 1;
        while cursor.line > 0
            invariant_except_break
                found is None,
                cursor.line > 0 ==> search_backward(lv, (cursor.line - 1) as nat, c0, search@) == target,
                cursor.line == 0 ==> target is None,
            invariant
                lines@.map_values(|l: BufferLine| l@) == lv,
                n_lines == lv.len(),
                start_line == c0.line,
                cursor.line <= c0.line + 1,
                (c0.line as int) < lv.len(),
                cursor == (Cursor { line: cursor.line, ..c0 }),
                target == search_result(st0, search@, forwards),
                !forwards,
                st0.cursor == c0,
                st0.lines == lv,
            ensures
                found matches Some(i) ==> target == Some((cursor.line as nat, i as int)),
                found is None ==> target is None,
            decreases cursor.line,
        {
            cursor.line = cursor.line - 1;
            proof {
                assert(lv[cursor.line as int] == lines@[cursor.line as int]@);
            }
            let ms = rmatch_indices(lines[cursor.line].text(), search);
            let bound = if cursor.line != start_line {
                None
            } else {
                Some(cursor.index)
            };
            match find_before(&ms, bound) {
                Some(index) => {
                    found = Some(index);
                    break;
                },
                None => {},
            }
        }
    }
    match found {
        Some(index) => {
            cursor.index = index;
            editor.set_cursor(cursor);
        },
        None => {},
    }
    proof {
        lemma_state_parts(editor);
    }
}

/// The byte offset of the first `find` in `cs` at character `k` or later.
pub open spec fn find_from(cs: Seq<char>, find: char, k: int) -> Option<nat>
    decreases cs.len() - k,
{
    if k < 0 || k >= cs.len() {
        None
    } else if cs[k] == find {
        Some(byte_len(cs.take(k)))
    } else {
        find_from(cs, find, k + 1)
    }
}

/// The byte offset of the character before the first `find` in `cs` at character
/// `k` or later.
pub open spec fn find_till_from(cs: Seq<char>, find: char, k: int) -> Option<nat>
    decreases cs.len() - k,
{
    if k < 1 || k >= cs.len() {
        None
    } else if cs[k] == find {
        Some(byte_len(cs.take(k - 1)))
    } else {
        find_till_from(cs, find, k + 1)
    }
}

/// The byte offset of the last `find` in `cs`.
pub open spec fn rfind(cs: Seq<char>, find: char) -> Option<nat>
    decreases cs.len(),
{
    if cs.len() == 0 {
        None
    } else if cs.last() == find {
        Some(byte_len(cs.drop_last()))
    } else {
        rfind(cs.drop_last(), find)
    }
}

/// The byte offset just after the last `find` in `cs`.
pub open spec fn rfind_after(cs: Seq<char>, find: char) -> Option<nat>
    decreases cs.len(),
{
    if cs.len() == 0 {
        None
    } else if cs.last() == find {
        Some(byte_len(cs))
    } else {
        rfind_after(cs.drop_last(), find)
    }
}

/// The four ways of finding a character on the cursor's line.
#[derive(Clone, Copy, Debug, PartialEq, Eq, Structural)]
pub enum CharFind {
    /// To the next `c` after the cursor
    Next,
    /// To just before the next `c` after the character after the cursor
    NextTill,
    /// To the previous `c` before the cursor
    Previous,
    /// To just after the previous `c` that ends before the cursor
    PreviousTill,
}

/// Where finding `find` on the cursor's line moves the cursor's byte index, if it
/// moves.
pub open spec fn char_find_index(t: Seq<char>, index: usize, how: CharFind, find: char) -> Option<int> {
    match how {
        CharFind::Next => if index < byte_len(t) {
            match find_from(byte_suffix(t, index as int), find, 1) {
                Some(o) => Some(index + o),
                None => None,
            }
        } else {
            None
        },
        CharFind::NextTill => if index < byte_len(t) {
            match find_till_from(byte_suffix(t, index as int), find, 2) {
                Some(o) => Some(index + o),
                None => None,
            }
        } else {
            None
        },
        CharFind::Previous => if index > 0 {
            match rfind(byte_prefix(t, index as int), find) {
                Some(o) => Some(o as int),
                None => None,
            }
        } else {
            None
        },
        CharFind::PreviousTill => if index > 0 {
            let p = byte_prefix(t, index as int);
            if p.len() == 0 {
                None
            } else {
                match rfind_after(p.drop_last(), find) {
                    Some(o) => Some(o as int),
                    None => None,
                }
            }
        } else {
            None
        },
    }
}

/// What finding a character needs: the cursor on a character boundary of a line that
/// exists.
pub open spec fn char_find_ok(st: EditorView) -> bool {
    &&& (st.cursor.line as int) < st.lines.len()
    &&& at_char_boundary(st.lines[st.cursor.line as int].text, st.cursor.index as int)
}

/// The editor after finding a character: the cursor at the new index, else as it was.
pub open spec fn spec_char_find(st: EditorView, how: CharFind, find: char) -> EditorView {
    match char_find_index(st.lines[st.cursor.line as int].text, st.cursor.index, how, find) {
        Some(i) => {
            let c = Cursor { index: i as usize, ..st.cursor };
            EditorView { cursor: c, cursor_moved: st.cursor_moved || c != st.cursor, ..st }
        },
        None => st,
    }
}


/// The first `find` after the first character of `s`, by byte offset.
fn first_after_start(s: &str, find: char) -> (r: Option<usize>)
    ensures
        (match r {
            Some(o) => Some(o as nat),
            None => None::<nat>,
        }) == find_from(s@, find, 1),
{
    let ghost cs = s@;
    let text_bytes = s.as_bytes().len();
    let mut off: usize = 0;
    proof {
        lemma_byte_len_at_least_len(cs);
        assert(cs.take(0) =~= Seq::<char>::empty());
    }
    for c in it: s.chars()
        invariant
            it.seq() == cs,
            cs == s@,
            byte_len(cs) == text_bytes,
            off == byte_len(cs.take(it.index() as int)),
            off >= it.index(),
            forall|k: int| 1 <= k < it.index() ==> cs[k] != find,
    {
        let ghost k = it.index() as int;
        proof {
            assert(cs[k] == c);
            assert(cs.take(k + 1) =~= cs.take(k).push(c));
            lemma_byte_len_push(cs.take(k), c);
            lemma_byte_len_take(cs, k + 1);
            if k >= 1 {
                lemma_find_from_skip(cs, find, 1, k);
            } else {
                assert(cs.take(0) =~= Seq::<char>::empty());
            }
        }
        if off > 0 && c == find {
            proof {
                if k == 0 {
                    assert(cs.take(0) =~= Seq::<char>::empty());
                    assert(off == 0);
                }
                assert(find_from(cs, find, k) == Some(byte_len(cs.take(k))));
            }
            return Some(off);
        }
        off = off + char_len(c);
    }
    proof {
        if cs.len() >= 1 {
            lemma_find_from_skip(cs, find, 1, cs.len() as int);
        }
    }
    None
}

/// A found offset lies within the text.
proof fn lemma_find_bounds(cs: Seq<char>, find: char, k: int)
    ensures
        find_from(cs, find, k) matches Some(o) ==> o <= byte_len(cs),
        find_till_from(cs, find, k) matches Some(o) ==> o <= byte_len(cs),
    decreases cs.len() - k,
{
    if 0 <= k < cs.len() {
        lemma_byte_len_take(cs, k);
        if k >= 1 {
            lemma_byte_len_take(cs, k - 1);
        }
        lemma_find_bounds(cs, find, k + 1);
    }
}

/// Characters before `k` that are not `find` are passed over.
proof fn lemma_find_from_skip(cs: Seq<char>, find: char, from: int, k: int)
    requires
        1 <= from <= k <= cs.len(),
        forall|j: int| from <= j < k ==> cs[j] != find,
    ensures
        find_from(cs, find, from) == find_from(cs, find, k),
    decreases k - from,
{
    if from < k {
        lemma_find_from_skip(cs, find, from + 1, k);
    }
}

/// Characters before `k` that are not `find` are passed over.
proof fn lemma_find_till_skip(cs: Seq<char>, find: char, from: int, k: int)
    requires
        2 <= from <= k <= cs.len(),
        forall|j: int| from <= j < k ==> cs[j] != find,
    ensures
        find_till_from(cs, find, from) == find_till_from(cs, find, k),
    decreases k - from,
{
    if from < k {
        lemma_find_till_skip(cs, find, from + 1, k);
    }
}

/// The character before the first `find` from the third character of `s` on, by
/// byte offset: the offset of the previous character is remembered as the walk goes.
fn first_till(s: &str, find: char) -> (r: Option<usize>)
    ensures
        (match r {
            Some(o) => Some(o as nat),
            None => None::<nat>,
        }) == find_till_from(s@, find, 2),
{
    let ghost cs = s@;
    let text_bytes = s.as_bytes().len();
    let mut off: usize = 0;
    let mut last_i: usize = 0;
    proof {
        lemma_byte_len_at_least_len(cs);
        assert(cs.take(0) =~= Seq::<char>::empty());
    }
    for c in it: s.chars()
        invariant
            it.seq() == cs,
            cs == s@,
            byte_len(cs) == text_bytes,
            off == byte_len(cs.take(it.index() as int)),
            off >= it.index(),
            it.index() >= 1 ==> last_i == byte_len(cs.take(it.index() - 1)),
            it.index() >= 1 ==> (last_i > 0 <==> it.index() >= 2),
            it.index() == 0 ==> last_i == 0,
            forall|k: int| 2 <= k < it.index() ==> cs[k] != find,
    {
        let ghost k = it.index() as int;
        proof {
            assert(cs[k] == c);
            assert(cs.take(k + 1) =~= cs.take(k).push(c));
            lemma_byte_len_push(cs.take(k), c);
            lemma_byte_len_take(cs, k + 1);
            if k >= 1 {
                lemma_byte_len_at_least_len(cs.take(k - 1));
                assert(cs.take(k) =~= cs.take(k - 1).push(cs[k - 1]));
                lemma_byte_len_push(cs.take(k - 1), cs[k - 1]);
            }
            if k >= 2 {
                lemma_find_till_skip(cs, find, 2, k);
            }
        }
        if last_i > 0 && c == find {
            proof {
                assert(k >= 2);
                assert(find_till_from(cs, find, k) == Some(byte_len(cs.take(k - 1))));
            }
            return Some(last_i);
        } else {
            last_i = off;
        }
        off = off + char_len(c);
    }
    proof {
        if cs.len() >= 2 {
            lemma_find_till_skip(cs, find, 2, cs.len() as int);
        }
    }
    None
}

/// The last `find` in `s`, by byte offset.
fn last_match(s: &str, find: char) -> (r: Option<usize>)
    ensures
        (match r {
            Some(o) => Some(o as nat),
            None => None::<nat>,
        }) == rfind(s@, find),
{
    let ghost cs = s@;
    let text_bytes = s.as_bytes().len();
    let mut off: usize = 0;
    let mut found: Option<usize> = None;
    proof {
        assert(cs.take(0) =~= Seq::<char>::empty());
    }
    for c in it: s.chars()
        invariant
            it.seq() == cs,
            cs == s@,
            byte_len(cs) == text_bytes,
            off == byte_len(cs.take(it.index() as int)),
            (match found {
                Some(o) => Some(o as nat),
                None => None::<nat>,
            }) == rfind(cs.take(it.index() as int), find),
    {
        let ghost k = it.index() as int;
        proof {
            assert(cs.take(k + 1) =~= cs.take(k).push(c));
            lemma_byte_len_push(cs.take(k), c);
            lemma_byte_len_take(cs, k + 1);
            assert(cs.take(k + 1).drop_last() =~= cs.take(k));
            assert(cs.take(k + 1).last() == c);
        }
        if c == find {
            found = Some(off);
        }
        off = off + char_len(c);
    }
    proof {
        assert(cs.take(cs.len() as int) =~= cs);
    }
    found
}

/// Just after the last `find` in `s` that ends before the end of `s`, by byte offset.
fn last_match_end_before(s: &str, find: char) -> (r: Option<usize>)
    ensures
        (match r {
            Some(o) => Some(o as nat),
            None => None::<nat>,
        }) == if s@.len() == 0 {
            None
        } else {
            rfind_after(s@.drop_last(), find)
        },
{
    let ghost cs = s@;
    let index = s.as_bytes().len();
    let mut off: usize = 0;
    let mut found: Option<usize> = None;
    proof {
        assert(cs.take(0) =~= Seq::<char>::empty());
    }
    for c in it: s.chars()
        invariant
            it.seq() == cs,
            cs == s@,
            byte_len(cs) == index,
            off == byte_len(cs.take(it.index() as int)),
            cs.len() >= 1 ==> (match found {
                Some(o) => Some(o as nat),
                None => None::<nat>,
            }) == rfind_after(cs.take(if it.index() < cs.len() - 1 { it.index() as int } else { cs.len() - 1 }), find),
            found is Some ==> cs.len() >= 1,
    {
        let ghost k = it.index() as int;
        proof {
            assert(cs[k] == c);
            assert(cs.take(k + 1) =~= cs.take(k).push(c));
            lemma_byte_len_push(cs.take(k), c);
            lemma_byte_len_take(cs, k + 1);
            lemma_bytes_grow_vi(cs, k + 1, cs.len() as int);
            assert(cs.take(cs.len() as int) =~= cs);
            assert(cs.take(k + 1).drop_last() =~= cs.take(k));
            assert(cs.take(k + 1).last() == c);
        }
        let end = off + char_len(c);
        if c == find && end < index {
            found = Some(end);
        }
        off = end;
    }
    proof {
        if cs.len() >= 1 {
            assert(cs.take(cs.len() - 1) =~= cs.drop_last());
        }
    }
    found
}

/// Bytes before a character grow with the character.
proof fn lemma_bytes_grow_vi(t: Seq<char>, x: int, y: int)
    requires
        0 <= x <= y <= t.len(),
    ensures
        x < y ==> byte_len(t.take(x)) < byte_len(t.take(y)),
        byte_len(t.take(x)) <= byte_len(t.take(y)),
{
    assert(t.take(y) =~= t.take(x) + t.subrange(x, y));
    crate::strings::lemma_split_at_join(t.take(x), t.subrange(x, y));
    lemma_byte_len_at_least_len(t.subrange(x, y));
}

/// Find a character on the cursor's line: the next `find` after the cursor, the
/// character before the next one past the character after the cursor, the previous
/// `find` before the cursor, or just after the previous one that ends before the
/// cursor. The cursor stays where there is none.
pub fn find_char(editor: &mut Editor, how: CharFind, find: char)
    requires
        char_find_ok(old(editor).state()),
    ensures
        final(editor).state() == spec_char_find(old(editor).state(), how, find),
{
    proof {
        lemma_state_parts(editor);
    }
    let ghost st0 = editor.state();
    let mut cursor = editor.cursor();
    let lines = editor.lines();
    proof {
        assert(st0.lines[cursor.line as int] == lines@[cursor.line as int]@);
    }
    let text = lines[cursor.line].text();
    let len = text.as_bytes().len();
    let ghost t = text@;
    let found: Option<usize> = match how {
        CharFind::Next => {
            if cursor.index < len {
                let (_, rest) = split_at_byte(text, cursor.index);
                proof {
                    lemma_split_at_boundary(t, cursor.index as int);
                    lemma_find_bounds(rest@, find, 1);
                }
                match first_after_start(rest, find) {
                    Some(i) => Some(cursor.index + i),
                    None => None,
                }
            } else {
                None
            }
        },
        CharFind::NextTill => {
            if cursor.index < len {
                let (_, rest) = split_at_byte(text, cursor.index);
                proof {
                    lemma_split_at_boundary(t, cursor.index as int);
                    lemma_find_bounds(rest@, find, 2);
                }
                match first_till(rest, find) {
                    Some(i) => Some(cursor.index + i),
                    None => None,
                }
            } else {
                None
            }
        },
        CharFind::Previous => {
            if cursor.index > 0 {
                let (before, _) = split_at_byte(text, cursor.index);
                last_match(before, find)
            } else {
                None
            }
        },
        CharFind::PreviousTill => {
            if cursor.index > 0 {
                let (before, _) = split_at_byte(text, cursor.index);
                last_match_end_before(before, find)
            } else {
                None
            }
        },
    };
    match found {
        Some(i) => {
            cursor.index = i;
            editor.set_cursor(cursor);
        },
        None => {},
    }
    proof {
        lemma_state_parts(editor);
    }
}

/// What counts as a word: `Lower`, a run of letters, digits and underscores or a run
/// of other non-blank characters; `Upper`, any run of non-blank characters.
#[derive(Clone, Copy, Debug, PartialEq, Eq, Structural)]
pub enum WordKind {
    Lower,
    Upper,
}

/// The words of a line, each with its byte offset.
pub uninterp spec fn vi_words(line: Seq<char>, kind: WordKind) -> Seq<(usize, Seq<char>)>;

/// An ASCII letter, digit or underscore: a keyword character.
pub open spec fn ascii_keyword(c: char) -> bool {
    let v = c as u32;
    (0x61 <= v && v <= 0x7a) || (0x41 <= v && v <= 0x5a) || (0x30 <= v && v <= 0x39) || v == 0x5f
}

/// An ASCII character that is neither blank nor a keyword character.
pub open spec fn ascii_symbol(c: char) -> bool {
    (c as u32) < 0x80 && !is_whitespace_char(c) && !ascii_keyword(c)
}

/// Two characters that, side by side, belong to one word: for `Upper` any two
/// non-blank characters; for `Lower` two keyword characters or two other non-blank
/// characters (stated for ASCII, where which class a character has is plain).
pub open spec fn same_word_class(a: char, b: char, kind: WordKind) -> bool {
    match kind {
        WordKind::Upper => !is_whitespace_char(a) && !is_whitespace_char(b),
        WordKind::Lower => (ascii_keyword(a) && ascii_keyword(b)) || (ascii_symbol(a) && ascii_symbol(
            b,
        )),
    }
}

/// Two characters that, side by side, belong to different words of the kind.
pub open spec fn other_word_class(a: char, b: char, kind: WordKind) -> bool {
    match kind {
        WordKind::Upper => false,
        WordKind::Lower => (ascii_keyword(a) && ascii_symbol(b)) || (ascii_symbol(a) && ascii_keyword(
            b,
        )),
    }
}

/// How the words `ws` split line `t`: they come in order without overlap; each word
/// is a non-empty run of non-blank characters of one class, the characters just
/// before and just after it are not of its class, and every non-blank character of
/// the line lies in a word.
pub open spec fn words_split(t: Seq<char>, kind: WordKind, ws: Seq<(usize, Seq<char>)>) -> bool {
    &&& forall|k1: int, k2: int|
        0 <= k1 < k2 < ws.len() ==> (#[trigger] ws[k1]).0 + byte_len(ws[k1].1) <= (#[trigger] ws[k2]).0
    &&& forall|k: int|
        0 <= k < ws.len() ==> {
            let o = (#[trigger] ws[k]).0 as int;
            let w = ws[k].1;
            let e = o + byte_len(w);
            &&& w.len() > 0
            &&& forall|j: int| 0 <= j < w.len() ==> !is_whitespace_char(#[trigger] w[j])
            &&& forall|j: int| 0 < j < w.len() ==> !other_word_class(w[j - 1], #[trigger] w[j], kind)
            &&& byte_suffix(t, o)[0] == w[0]
            &&& o > 0 ==> !same_word_class(byte_prefix(t, o).last(), w[0], kind)
            &&& e < byte_len(t) ==> !same_word_class(w.last(), byte_suffix(t, e)[0], kind)
        }
    &&& forall|j: int|
        0 <= j < t.len() && !is_whitespace_char(#[trigger] t[j]) ==> exists|k: int|
            0 <= k < ws.len() && (#[trigger] ws[k]).0 <= byte_len(t.take(j)) < ws[k].0 + byte_len(
                ws[k].1,
            )
}

/// `modit::WordIter`: the words of a line in order, each with its byte offset. Each
/// item the crate hands out is the slice of the line at its offset. The iterator
/// walks the line and classes each character as blank (`char::is_whitespace`), a
/// keyword character (`char::is_alphanumeric` or `_`; for `Upper` every non-blank
/// character) or another non-blank one; a word starts at a non-blank character whose
/// class differs from the one before and runs until the class changes. That split is
/// stated by `words_split`; which non-ASCII characters are keyword characters is left
/// to the name.
#[verifier::external_body]
fn word_iter(line: &str, kind: WordKind) -> (r: Vec<(usize, String)>)
    ensures
        r@.map_values(|p: (usize, String)| (p.0, p.1@)) == vi_words(line@, kind),
        crate::strings::pieces_within(r@.map_values(|p: (usize, String)| (p.0, p.1@)), line@),
        words_split(line@, kind, r@.map_values(|p: (usize, String)| (p.0, p.1@))),
{
    let word = match kind {
        WordKind::Lower => Word::Lower,
        WordKind::Upper => Word::Upper,
    };
    WordIter::new(line, word).map(|(i, w)| (i, w.to_string())).collect()
}

/// Where a motion by word lands on a word: its start, or its last character.
pub open spec fn word_pos(w: (usize, Seq<char>), ends: bool) -> int {
    if ends && w.1.len() > 0 {
        w.0 + byte_len(w.1.drop_last())
    } else {
        w.0 as int
    }
}

/// The first word position after `index`.
pub open spec fn first_pos_after(ws: Seq<(usize, Seq<char>)>, index: int, ends: bool) -> Option<int>
    decreases ws.len(),
{
    if ws.len() == 0 {
        None
    } else if word_pos(ws[0], ends) > index {
        Some(word_pos(ws[0], ends))
    } else {
        first_pos_after(ws.drop_first(), index, ends)
    }
}

/// The last word position before `index`.
pub open spec fn last_pos_before(ws: Seq<(usize, Seq<char>)>, index: int, ends: bool) -> Option<int>
    decreases ws.len(),
{
    if ws.len() == 0 {
        None
    } else if word_pos(ws.last(), ends) < index {
        Some(word_pos(ws.last(), ends))
    } else {
        last_pos_before(ws.drop_last(), index, ends)
    }
}

/// Moving forward by word from byte `index` of line `line`: to the next word start
/// (or end) on the line, else on to the following lines, where a word at a line's
/// very start is passed over; at the end of the last line the motion stops.
pub open spec fn next_word(lines: Seq<LineView>, line: nat, index: nat, kind: WordKind, ends: bool) -> (nat, nat)
    decreases lines.len() - line, byte_len(lines[line as int].text) - index,
{
    let t = lines[line as int].text;
    let len = byte_len(t);
    if line >= lines.len() {
        (line, index)
    } else if index < len {
        let ni = match first_pos_after(vi_words(t, kind), index as int, ends) {
            Some(p) => p,
            None => len as int,
        };
        if ni >= len {
            next_word(lines, line, len, kind, ends)
        } else if ni > index {
            (line, ni as nat)
        } else {
            (line, index)
        }
    } else if line + 1 < lines.len() {
        next_word(lines, line + 1, 0, kind, ends)
    } else {
        (line, index)
    }
}

/// Moving backward by word from byte `index` of line `line`: to the previous word
/// start (or end) on the line, else back to the lines before; at the start of the
/// first line the motion stops.
pub open spec fn prev_word(lines: Seq<LineView>, line: nat, index: nat, kind: WordKind, ends: bool) -> (nat, nat)
    decreases line, index,
{
    if index > 0 {
        let ni = match last_pos_before(vi_words(lines[line as int].text, kind), index as int, ends) {
            Some(p) => p,
            None => 0,
        };
        if ni <= 0 {
            prev_word(lines, line, 0, kind, ends)
        } else if ni < index {
            (line, ni as nat)
        } else {
            (line, index)
        }
    } else if line > 0 {
        prev_word(lines, (line - 1) as nat, byte_len(lines[line - 1].text), kind, ends)
    } else {
        (line, index)
    }
}

/// The ways of moving by word.
#[derive(Clone, Copy, Debug, PartialEq, Eq, Structural)]
pub enum WordMotion {
    /// To the start of the next word
    NextStart,
    /// To the last character of the next word
    NextEnd,
    /// To the start of the previous word
    PreviousStart,
    /// To the last character of the previous word
    PreviousEnd,
}

/// What moving by word needs: the cursor's line exists.
pub open spec fn word_motion_ok(st: EditorView) -> bool {
    (st.cursor.line as int) < st.lines.len()
}

/// Where a word motion puts the cursor.
pub open spec fn word_motion_target(st: EditorView, motion: WordMotion, kind: WordKind) -> (nat, nat) {
    let l = st.cursor.line as nat;
    let i = st.cursor.index as nat;
    match motion {
        WordMotion::NextStart => next_word(st.lines, l, i, kind, false),
        WordMotion::NextEnd => next_word(st.lines, l, i, kind, true),
        WordMotion::PreviousStart => prev_word(st.lines, l, i, kind, false),
        WordMotion::PreviousEnd => prev_word(st.lines, l, i, kind, true),
    }
}

/// The editor after a word motion.
pub open spec fn spec_word_motion(st: EditorView, motion: WordMotion, kind: WordKind) -> EditorView {
    let target = word_motion_target(st, motion, kind);
    let c = Cursor { line: target.0 as usize, index: target.1 as usize, ..st.cursor };
    EditorView { cursor: c, cursor_moved: st.cursor_moved || c != st.cursor, ..st }
}

/// The byte offset of the last character of `w`, 0 for an empty word.
fn last_char_offset(w: &str) -> (r: usize)
    ensures
        r == if w@.len() > 0 {
            byte_len(w@.drop_last())
        } else {
            0
        },
{
    let ghost cs = w@;
    let text_bytes = w.as_bytes().len();
    let mut off: usize = 0;
    let mut last: usize = 0;
    proof {
        assert(cs.take(0) =~= Seq::<char>::empty());
    }
    for c in it: w.chars()
        invariant
            it.seq() == cs,
            cs == w@,
            byte_len(cs) == text_bytes,
            off == byte_len(cs.take(it.index() as int)),
            last == if it.index() > 0 {
                byte_len(cs.take(it.index() - 1))
            } else {
                0
            },
    {
        let ghost k = it.index() as int;
        proof {
            assert(cs.take(k + 1) =~= cs.take(k).push(c));
            lemma_byte_len_push(cs.take(k), c);
            lemma_byte_len_take(cs, k + 1);
        }
        last = off;
        off = off + char_len(c);
    }
    proof {
        if cs.len() > 0 {
            assert(cs.take(cs.len() - 1) =~= cs.drop_last());
        }
    }
    last
}

/// The words of a line as values.
pub open spec fn word_views(v: Seq<(usize, String)>) -> Seq<(usize, Seq<char>)> {
    v.map_values(|p: (usize, String)| (p.0, p.1@))
}

/// A word position lies within the line.
proof fn lemma_word_pos_bound(ws: Seq<(usize, Seq<char>)>, t: Seq<char>, k: int, ends: bool)
    requires
        crate::strings::pieces_within(ws, t),
        0 <= k < ws.len(),
    ensures
        0 <= word_pos(ws[k], ends) <= byte_len(t),
{
    let w = ws[k];
    if w.1.len() > 0 {
        lemma_byte_len_take(w.1, w.1.len() - 1);
        assert(w.1.take(w.1.len() - 1) =~= w.1.drop_last());
    }
}

/// The first word position after `index`, computed.
fn first_word_pos_after(words: &Vec<(usize, String)>, index: usize, ends: bool, Ghost(t): Ghost<Seq<char>>) -> (r: Option<usize>)
    requires
        crate::strings::pieces_within(word_views(words@), t),
        byte_len(t) <= usize::MAX,
    ensures
        (match r {
            Some(p) => Some(p as int),
            None => None::<int>,
        }) == first_pos_after(word_views(words@), index as int, ends),
{
    let ghost ws = word_views(words@);
    let mut k: usize = 0;
    proof {
        assert(ws.skip(0) =~= ws);
    }
    while k < words.len()
        invariant
            k <= words@.len(),
            ws == word_views(words@),
            crate::strings::pieces_within(ws, t),
            byte_len(t) <= usize::MAX,
            first_pos_after(ws.skip(k as int), index as int, ends) == first_pos_after(ws, index as int, ends),
        decreases words@.len() - k,
    {
        proof {
            assert(ws[k as int] == (words@[k as int].0, words@[k as int].1@));
            assert(ws.skip(k as int)[0] == ws[k as int]);
            assert(ws.skip(k as int).drop_first() =~= ws.skip(k + 1));
            lemma_word_pos_bound(ws, t, k as int, ends);
        }
        let (i, w) = &words[k];
        let pos = if ends {
            *i + last_char_offset(w.as_str())
        } else {
            *i
        };
        if pos > index {
            return Some(pos);
        }
        k = k + 1;
    }
    proof {
        assert(ws.skip(k as int).len() == 0);
    }
    None
}

/// The last word position before `index`, computed: the walk keeps the last one
/// found.
fn last_word_pos_before(words: &Vec<(usize, String)>, index: usize, ends: bool, Ghost(t): Ghost<Seq<char>>) -> (r: Option<usize>)
    requires
        crate::strings::pieces_within(word_views(words@), t),
        byte_len(t) <= usize::MAX,
    ensures
        (match r {
            Some(p) => Some(p as int),
            None => None::<int>,
        }) == last_pos_before(word_views(words@), index as int, ends),
{
    let ghost ws = word_views(words@);
    let mut k: usize = 0;
    let mut found: Option<usize> = None;
    proof {
        assert(ws.take(0) =~= Seq::<(usize, Seq<char>)>::empty());
    }
    while k < words.len()
        invariant
            k <= words@.len(),
            ws == word_views(words@),
            crate::strings::pieces_within(ws, t),
            byte_len(t) <= usize::MAX,
            (match found {
                Some(p) => Some(p as int),
                None => None::<int>,
            }) == last_pos_before(ws.take(k as int), index as int, ends),
        decreases words@.len() - k,
    {
        proof {
            assert(ws[k as int] == (words@[k as int].0, words@[k as int].1@));
            assert(ws.take(k + 1).last() == ws[k as int]);
            assert(ws.take(k + 1).drop_last() =~= ws.take(k as int));
            lemma_word_pos_bound(ws, t, k as int, ends);
        }
        let (i, w) = &words[k];
        let pos = if ends {
            *i + last_char_offset(w.as_str())
        } else {
            *i
        };
        if pos < index {
            found = Some(pos);
        }
        k = k + 1;
    }
    proof {
        assert(ws.take(words@.len() as int) =~= ws);
    }
    found
}

/// Byte `i` of line `t` starts a word when it lies inside the line: the character
/// there is not blank, and it is not of one class with the character before it.
pub open spec fn word_start_at(t: Seq<char>, i: int, kind: WordKind) -> bool {
    0 < i < byte_len(t) ==> {
        let c = byte_suffix(t, i)[0];
        &&& !is_whitespace_char(c)
        &&& !same_word_class(byte_prefix(t, i).last(), c, kind)
    }
}

/// A position found after `index` for word starts is the offset of one of the words.
proof fn lemma_first_pos_after_start(ws: Seq<(usize, Seq<char>)>, index: int)
    ensures
        first_pos_after(ws, index, false) matches Some(p) ==> exists|k: int|
            0 <= k < ws.len() && #[trigger] ws[k].0 == p,
    decreases ws.len(),
{
    if ws.len() > 0 {
        lemma_first_pos_after_start(ws.drop_first(), index);
        if first_pos_after(ws, index, false) is Some && word_pos(ws[0], false) <= index {
            let p = first_pos_after(ws, index, false)->0;
            let k = choose|k: int| 0 <= k < ws.drop_first().len() && #[trigger] ws.drop_first()[k].0 == p;
            assert(ws[k + 1] == ws.drop_first()[k]);
        }
    }
}

/// A position found before `index` for word starts is the offset of one of the words.
proof fn lemma_last_pos_before_start(ws: Seq<(usize, Seq<char>)>, index: int)
    ensures
        last_pos_before(ws, index, false) matches Some(p) ==> exists|k: int|
            0 <= k < ws.len() && #[trigger] ws[k].0 == p,
    decreases ws.len(),
{
    if ws.len() > 0 {
        lemma_last_pos_before_start(ws.drop_last(), index);
        if last_pos_before(ws, index, false) is Some && word_pos(ws.last(), false) >= index {
            let p = last_pos_before(ws, index, false)->0;
            let k = choose|k: int| 0 <= k < ws.drop_last().len() && #[trigger] ws.drop_last()[k].0 == p;
            assert(ws[k] == ws.drop_last()[k]);
        }
    }
}

/// The offset of a word of a well split line is a word start there.
proof fn lemma_word_offset_starts(t: Seq<char>, kind: WordKind, ws: Seq<(usize, Seq<char>)>, k: int)
    requires
        words_split(t, kind, ws),
        0 <= k < ws.len(),
    ensures
        word_start_at(t, ws[k].0 as int, kind),
{
    let w = ws[k].1;
    assert(w.len() > 0);
    assert(!is_whitespace_char(w[0]));
}

/// Move the cursor by word: to the start or the last character of the next or the
/// previous word, across lines. A motion to a word start lands, within a line, where
/// a word starts: on a non-blank character that is not of one class with the one
/// before it.
pub fn word_motion(editor: &mut Editor, motion: WordMotion, kind: WordKind)
    requires
        word_motion_ok(old(editor).state()),
    ensures
        final(editor).state() == spec_word_motion(old(editor).state(), motion, kind),
        (motion == WordMotion::NextStart || motion == WordMotion::PreviousStart) ==> word_start_at(
            final(editor).state().lines[final(editor).state().cursor.line as int].text,
            final(editor).state().cursor.index as int,
            kind,
        ),
{
    proof {
        lemma_state_parts(editor);
    }
    let ghost st0 = editor.state();
    let mut cursor = editor.cursor();
    let lines = editor.lines();
    let ghost lv = st0.lines;
    let ghost target = word_motion_target(st0, motion, kind);
    let n = lines.len();
    let forward = motion == WordMotion::NextStart || motion == WordMotion::NextEnd;
    let ends = motion == WordMotion::NextEnd || motion == WordMotion::PreviousEnd;
    proof {
        assert(lines@.map_values(|l: BufferLine| l@) == lv);
    }
    let mut done = false;
    if forward {
        while !done
            invariant
                lines@.map_values(|l: BufferLine| l@) == lv,
                n == lv.len(),
                (cursor.line as int) < lv.len(),
                cursor.affinity == st0.cursor.affinity,
                forward,
                ends == (motion == WordMotion::NextEnd),
                target == word_motion_target(st0, motion, kind),
                st0.lines == lv,
                !done ==> next_word(lv, cursor.line as nat, cursor.index as nat, kind, ends) == target,
                done ==> (cursor.line as nat, cursor.index as nat) == target,
                done && !ends ==> word_start_at(lv[cursor.line as int].text, cursor.index as int, kind),
            decreases lv.len() - cursor.line, if cursor.index <= byte_len(lv[cursor.line as int].text) {
                byte_len(lv[cursor.line as int].text) - cursor.index
            } else {
                0
            }, if done { 0int } else { 1int },
        {
            proof {
                assert(lv[cursor.line as int] == lines@[cursor.line as int]@);
            }
            let text = lines[cursor.line].text();
            let len = text.as_bytes().len();
            if cursor.index < len {
                let words = word_iter(text, kind);
                let ni = match first_word_pos_after(&words, cursor.index, ends, Ghost(text@)) {
                    Some(p) => p,
                    None => len,
                };
                proof {
                    if first_pos_after(word_views(words@), cursor.index as int, ends) is Some {
                        lemma_first_pos_after_bound(word_views(words@), text@, cursor.index as int, ends);
                    }
                    if !ends && first_pos_after(word_views(words@), cursor.index as int, ends) is Some {
                        let ws = word_views(words@);
                        lemma_first_pos_after_start(ws, cursor.index as int);
                        let k = choose|k: int| 0 <= k < ws.len() && #[trigger] ws[k].0 == ni;
                        lemma_word_offset_starts(text@, kind, ws, k);
                    }
                }
                if ni == len {
                    cursor.index = len;
                } else {
                    cursor.index = ni;
                    done = true;
                }
            } else if cursor.line + 1 < n {
                cursor.line = cursor.line + 1;
                cursor.index = 0;
            } else {
                done = true;
            }
        }
    } else {
        while !done
            invariant
                lines@.map_values(|l: BufferLine| l@) == lv,
                n == lv.len(),
                (cursor.line as int) < lv.len(),
                cursor.affinity == st0.cursor.affinity,
                !forward,
                ends == (motion == WordMotion::PreviousEnd),
                target == word_motion_target(st0, motion, kind),
                st0.lines == lv,
                !done ==> prev_word(lv, cursor.line as nat, cursor.index as nat, kind, ends) == target,
                done ==> (cursor.line as nat, cursor.index as nat) == target,
                done && !ends ==> word_start_at(lv[cursor.line as int].text, cursor.index as int, kind),
            decreases cursor.line, cursor.index, if done { 0int } else { 1int },
        {
            proof {
                assert(lv[cursor.line as int] == lines@[cursor.line as int]@);
            }
            let text = lines[cursor.line].text();
            let len = text.as_bytes().len();
            if cursor.index > 0 {
                let words = word_iter(text, kind);
                let ni = match last_word_pos_before(&words, cursor.index, ends, Ghost(text@)) {
                    Some(p) => p,
                    None => 0,
                };
                proof {
                    lemma_last_pos_before_bound(word_views(words@), cursor.index as int, ends);
                    if !ends && last_pos_before(word_views(words@), cursor.index as int, ends) is Some {
                        let ws = word_views(words@);
                        lemma_last_pos_before_start(ws, cursor.index as int);
                        let k = choose|k: int| 0 <= k < ws.len() && #[trigger] ws[k].0 == ni;
                        lemma_word_offset_starts(text@, kind, ws, k);
                    }
                }
                cursor.index = ni;
                if ni != 0 {
                    done = true;
                }
            } else if cursor.line > 0 {
                cursor.line = cursor.line - 1;
                proof {
                    assert(lv[cursor.line as int] == lines@[cursor.line as int]@);
                }
                cursor.index = lines[cursor.line].text().as_bytes().len();
            } else {
                done = true;
            }
        }
    }
    editor.set_cursor(cursor);
    proof {
        lemma_state_parts(editor);
    }
}

/// A position found after `index` lies after it and within the line.
proof fn lemma_first_pos_after_bound(ws: Seq<(usize, Seq<char>)>, t: Seq<char>, index: int, ends: bool)
    requires
        crate::strings::pieces_within(ws, t),
    ensures
        first_pos_after(ws, index, ends) matches Some(p) ==> index < p <= byte_len(t),
    decreases ws.len(),
{
    if ws.len() > 0 {
        lemma_word_pos_bound(ws, t, 0, ends);
        let r = ws.drop_first();
        assert(crate::strings::pieces_within(r, t)) by {
            assert forall|i: int| 0 <= i < r.len() implies {
                &&& (#[trigger] r[i]).0 + byte_len(r[i].1) <= byte_len(t)
                &&& encode_utf8(t).subrange(r[i].0 as int, r[i].0 + byte_len(r[i].1)) == encode_utf8(r[i].1)
            } by {
                assert(r[i] == ws[i + 1]);
            }
        }
        lemma_first_pos_after_bound(r, t, index, ends);
    }
}

/// A position found after `index` lies after it.
proof fn lemma_first_pos_after_gt(ws: Seq<(usize, Seq<char>)>, index: int, ends: bool)
    ensures
        first_pos_after(ws, index, ends) matches Some(p) ==> p > index,
    decreases ws.len(),
{
    if ws.len() > 0 {
        lemma_first_pos_after_gt(ws.drop_first(), index, ends);
    }
}

/// Moving forward by word lands on the same or a later line, and on the same line at
/// the same or a later byte.
proof fn lemma_next_word_forward(lines: Seq<LineView>, line: nat, index: nat, kind: WordKind, ends: bool)
    ensures
        ({
            let r = next_word(lines, line, index, kind, ends);
            r.0 > line || (r.0 == line && r.1 >= index)
        }),
    decreases lines.len() - line, byte_len(lines[line as int].text) - index,
{
    let t = lines[line as int].text;
    let len = byte_len(t);
    if line < lines.len() {
        if index < len {
            lemma_first_pos_after_gt(vi_words(t, kind), index as int, ends);
            lemma_next_word_forward(lines, line, len, kind, ends);
        } else if line + 1 < lines.len() {
            lemma_next_word_forward(lines, line + 1, 0, kind, ends);
        }
    }
}

/// Moving backward by word lands on the same or an earlier line, and on the same
/// line at the same or an earlier byte.
proof fn lemma_prev_word_backward(lines: Seq<LineView>, line: nat, index: nat, kind: WordKind, ends: bool)
    ensures
        ({
            let r = prev_word(lines, line, index, kind, ends);
            r.0 < line || (r.0 == line && r.1 <= index)
        }),
    decreases line, index,
{
    if index > 0 {
        lemma_last_pos_before_bound(vi_words(lines[line as int].text, kind), index as int, ends);
        lemma_prev_word_backward(lines, line, 0, kind, ends);
    } else if line > 0 {
        lemma_prev_word_backward(lines, (line - 1) as nat, byte_len(lines[line - 1].text), kind, ends);
    }
}

/// Moving by word goes one way: a motion to a next word never lands before the
/// cursor, and one to a previous word never lands after it.
pub proof fn lemma_word_motion_direction(st: EditorView, motion: WordMotion, kind: WordKind)
    ensures
        ({
            let t = word_motion_target(st, motion, kind);
            let l = st.cursor.line as nat;
            let i = st.cursor.index as nat;
            &&& (motion == WordMotion::NextStart || motion == WordMotion::NextEnd) ==> (t.0 > l || (
            t.0 == l && t.1 >= i))
            &&& (motion == WordMotion::PreviousStart || motion == WordMotion::PreviousEnd) ==> (t.0
                < l || (t.0 == l && t.1 <= i))
        }),
{
    let l = st.cursor.line as nat;
    let i = st.cursor.index as nat;
    lemma_next_word_forward(st.lines, l, i, kind, motion == WordMotion::NextEnd);
    lemma_prev_word_backward(st.lines, l, i, kind, motion == WordMotion::PreviousEnd);
}

/// A position found before `index` lies before it.
proof fn lemma_last_pos_before_bound(ws: Seq<(usize, Seq<char>)>, index: int, ends: bool)
    ensures
        last_pos_before(ws, index, ends) matches Some(p) ==> p < index,
    decreases ws.len(),
{
    if ws.len() > 0 {
        lemma_last_pos_before_bound(ws.drop_last(), index, ends);
    }
}

/// The first word that holds byte `index`.
pub open spec fn word_at(ws: Seq<(usize, Seq<char>)>, index: int) -> Option<(usize, Seq<char>)>
    decreases ws.len(),
{
    if ws.len() == 0 {
        None
    } else if ws[0].0 <= index && ws[0].0 + byte_len(ws[0].1) > index {
        Some(ws[0])
    } else {
        word_at(ws.drop_first(), index)
    }
}

/// The editor after selecting the word under the cursor: the selection starts at the
/// word's start and the cursor goes to its end; where no word holds the cursor
/// nothing changes.
pub open spec fn spec_select_word(st: EditorView, kind: WordKind) -> EditorView {
    let c = st.cursor;
    match word_at(vi_words(st.lines[c.line as int].text, kind), c.index as int) {
        Some(w) => {
            let start = Cursor { index: w.0, ..c };
            let end = Cursor { index: (w.0 + byte_len(w.1)) as usize, ..c };
            EditorView {
                selection: Selection::Normal(start),
                cursor: end,
                cursor_moved: st.cursor_moved || end != c,
                ..st
            }
        },
        None => st,
    }
}

/// Select the word under the cursor.
pub fn select_word(editor: &mut Editor, kind: WordKind)
    requires
        word_motion_ok(old(editor).state()),
    ensures
        final(editor).state() == spec_select_word(old(editor).state(), kind),
{
    proof {
        lemma_state_parts(editor);
    }
    let ghost st0 = editor.state();
    let mut cursor = editor.cursor();
    let mut selection = editor.selection();
    let lines = editor.lines();
    proof {
        assert(st0.lines[cursor.line as int] == lines@[cursor.line as int]@);
    }
    let text = lines[cursor.line].text();
    let text_bytes = text.as_bytes().len();
    let words = word_iter(text, kind);
    let ghost ws = word_views(words@);
    let idx = cursor.index;
    let mut found: Option<(usize, usize)> = None;
    let mut k: usize = 0;
    proof {
        assert(ws.skip(0) =~= ws);
    }
    while k < words.len()
        invariant_except_break
            found is None,
            word_at(ws.skip(k as int), idx as int) == word_at(ws, idx as int),
        invariant
            k <= words@.len(),
            ws == word_views(words@),
            crate::strings::pieces_within(ws, text@),
            byte_len(text@) == text_bytes,
        ensures
            match found {
                Some((s, e)) => word_at(ws, idx as int) matches Some(w) && w.0 == s && e == w.0
                    + byte_len(w.1),
                None => word_at(ws, idx as int) is None,
            },
        decreases words@.len() - k,
    {
        proof {
            assert(ws[k as int] == (words@[k as int].0, words@[k as int].1@));
            assert(ws.skip(k as int)[0] == ws[k as int]);
            assert(ws.skip(k as int).drop_first() =~= ws.skip(k + 1));
        }
        let (i, w) = &words[k];
        let end = *i + crate::strings::text_len(w);
        if *i <= idx && end > idx {
            found = Some((*i, end));
            break;
        }
        k = k + 1;
    }
    if let Some((s, e)) = found {
        cursor.index = s;
        selection = Selection::Normal(cursor);
        cursor.index = e;
    }
    editor.set_selection(selection);
    editor.set_cursor(cursor);
    proof {
        lemma_state_parts(editor);
    }
}

} // verus!
