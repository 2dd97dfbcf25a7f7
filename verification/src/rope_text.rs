//! Rope-based text storage for efficient handling of large files, with a cache of
//! the line ending of each line.
//!
//! Lines follow the rope's convention: a line ends after a line break (LF, CR, CRLF
//! as one break, VT, FF, NEL, LS or PS) and includes it; the text after the last
//! break, possibly empty, is the last line.

use vstd::prelude::*;
use vstd::utf8::*;
use ropey::Rope;

verus! {

#[verifier::external_type_specification]
#[verifier::external_body]
pub struct ExRope(Rope);

/// The characters a rope holds.
pub uninterp spec fn rope_chars(r: Rope) -> Seq<char>;

/// A character that ends a line.
pub open spec fn is_line_break(c: char) -> bool {
    c == '\n' || c == '\r' || c == '\u{000B}' || c == '\u{000C}' || c == '\u{0085}' || c
        == '\u{2028}' || c == '\u{2029}'
}

/// The lines of a text, each with its line break; CR followed by LF is one break.
/// There is always at least one line.
pub open spec fn rope_lines(s: Seq<char>) -> Seq<Seq<char>>
    decreases s.len(),
{
    if s.len() == 0 {
        seq![Seq::<char>::empty()]
    } else {
        let ls = rope_lines(s.drop_last());
        let c = s.last();
        let n = ls.len() as int;
        if c == '\n' && n >= 2 && ls[n - 1].len() == 0 && ls[n - 2].len() > 0 && ls[n - 2].last()
            == '\r' {
            ls.update(n - 2, ls[n - 2].push('\n'))
        } else {
            let joined = ls.update(n - 1, ls[n - 1].push(c));
            if is_line_break(c) {
                joined.push(Seq::<char>::empty())
            } else {
                joined
            }
        }
    }
}

/// Number of characters in the first `i` lines.
pub open spec fn chars_before_line(ls: Seq<Seq<char>>, i: int) -> nat
    decreases i,
{
    if i <= 0 || ls.len() == 0 {
        0
    } else {
        chars_before_line(ls, i - 1) + ls[i - 1].len()
    }
}

/// Char index where line `i` starts (the length of the text for the line past the
/// end).
pub open spec fn spec_line_to_char(s: Seq<char>, i: int) -> nat {
    chars_before_line(rope_lines(s), i)
}

/// Number of UTF-8 bytes of a text.
pub open spec fn utf8_len(s: Seq<char>) -> nat {
    encode_utf8(s).len()
}

/// Byte index where line `i` starts.
pub open spec fn spec_line_to_byte(s: Seq<char>, i: int) -> nat {
    utf8_len(s.take(spec_line_to_char(s, i) as int))
}

/// The index of the char that byte `b` belongs to (the number of chars for the
/// past-the-end byte).
pub open spec fn spec_byte_to_char(s: Seq<char>, b: int) -> nat
    decreases s.len(),
{
    if s.len() == 0 || b < encode_scalar(s[0] as u32).len() {
        0
    } else {
        1 + spec_byte_to_char(s.drop_first(), b - encode_scalar(s[0] as u32).len())
    }
}

/// The line that char `c` is on: the number of line breaks before it, where a CR
/// right before `c` that pairs with an LF at `c` is not yet a break.
pub open spec fn spec_char_to_line(s: Seq<char>, c: int) -> nat {
    let breaks = (rope_lines(s.take(c)).len() - 1) as nat;
    if 0 < c < s.len() && s[c - 1] == '\r' && s[c] == '\n' {
        (breaks - 1) as nat
    } else {
        breaks
    }
}

/// `Rope::new`: an empty rope.
#[verifier::external_body]
fn rope_new() -> (r: Rope)
    ensures
        rope_chars(r) == Seq::<char>::empty(),
{
    Rope::new()
}

/// `Rope::from_str`: a rope holding `text`.
#[verifier::external_body]
fn rope_from_str(text: &str) -> (r: Rope)
    ensures
        rope_chars(r) == text@,
{
    Rope::from_str(text)
}

/// `Rope::len_lines`: the number of lines.
#[verifier::external_body]
fn rope_len_lines(r: &Rope) -> (n: usize)
    ensures
        n == rope_lines(rope_chars(*r)).len(),
{
    r.len_lines()
}

/// `Rope::len_bytes`: the UTF-8 length.
#[verifier::external_body]
fn rope_len_bytes(r: &Rope) -> (n: usize)
    ensures
        n == utf8_len(rope_chars(*r)),
{
    r.len_bytes()
}

/// `Rope::line_to_byte`: the byte index where a line starts; panics past one line
/// beyond the end.
#[verifier::external_body]
fn rope_line_to_byte(r: &Rope, line_idx: usize) -> (b: usize)
    requires
        line_idx <= rope_lines(rope_chars(*r)).len(),
    ensures
        b == spec_line_to_byte(rope_chars(*r), line_idx as int),
{
    r.line_to_byte(line_idx)
}

/// `Rope::line_to_char`: the char index where a line starts.
#[verifier::external_body]
fn rope_line_to_char(r: &Rope, line_idx: usize) -> (c: usize)
    requires
        line_idx <= rope_lines(rope_chars(*r)).len(),
    ensures
        c == spec_line_to_char(rope_chars(*r), line_idx as int),
{
    r.line_to_char(line_idx)
}

/// `Rope::byte_to_char`: the char a byte belongs to; panics past the end.
#[verifier::external_body]
fn rope_byte_to_char(r: &Rope, byte_idx: usize) -> (c: usize)
    requires
        byte_idx <= utf8_len(rope_chars(*r)),
    ensures
        c == spec_byte_to_char(rope_chars(*r), byte_idx as int),
{
    r.byte_to_char(byte_idx)
}

/// `Rope::char_to_line`: the line a char is on; panics past the end.
#[verifier::external_body]
fn rope_char_to_line(r: &Rope, char_idx: usize) -> (l: usize)
    requires
        char_idx <= rope_chars(*r).len(),
    ensures
        l == spec_char_to_line(rope_chars(*r), char_idx as int),
{
    r.char_to_line(char_idx)
}

/// `Rope::byte_to_line`: the line a byte is on; panics past the end.
#[verifier::external_body]
fn rope_byte_to_line(r: &Rope, byte_idx: usize) -> (l: usize)
    requires
        byte_idx <= utf8_len(rope_chars(*r)),
    ensures
        l == spec_char_to_line(
            rope_chars(*r),
            spec_byte_to_char(rope_chars(*r), byte_idx as int) as int,
        ),
{
    r.byte_to_line(byte_idx)
}

/// `Rope::insert`: inserts text at a char index; panics past the end.
#[verifier::external_body]
fn rope_insert(r: &mut Rope, char_idx: usize, text: &str)
    requires
        char_idx <= rope_chars(*old(r)).len(),
    ensures
        rope_chars(*final(r)) == rope_chars(*old(r)).take(char_idx as int) + text@ + rope_chars(
            *old(r),
        ).skip(char_idx as int),
{
    r.insert(char_idx, text)
}

/// `Rope::remove`: removes a char range; panics on a reversed or out-of-bounds range.
#[verifier::external_body]
fn rope_remove(r: &mut Rope, start: usize, end: usize)
    requires
        start <= end <= rope_chars(*old(r)).len(),
    ensures
        rope_chars(*final(r)) == rope_chars(*old(r)).take(start as int) + rope_chars(
            *old(r),
        ).skip(end as int),
{
    r.remove(start..end)
}

/// `Rope::line`, as a string: line `line_idx` with its line break.
#[verifier::external_body]
fn rope_line_string(r: &Rope, line_idx: usize) -> (s: String)
    requires
        line_idx < rope_lines(rope_chars(*r)).len(),
    ensures
        s@ == rope_lines(rope_chars(*r))[line_idx as int],
{
    r.line(line_idx).to_string()
}

/// `Rope::slice`, as a string: the chars of a char range.
#[verifier::external_body]
fn rope_slice_string(r: &Rope, start: usize, end: usize) -> (s: String)
    requires
        start <= end <= rope_chars(*r).len(),
    ensures
        s@ == rope_chars(*r).subrange(start as int, end as int),
{
    r.slice(start..end).to_string()
}

/// The rope's text as a string.
#[verifier::external_body]
fn rope_to_string(r: &Rope) -> (s: String)
    ensures
        s@ == rope_chars(*r),
{
    r.to_string()
}

/// `str::trim_end_matches` with a char: the string with every trailing `c` removed.
#[verifier::external_body]
fn str_trim_end_matches(s: &str, c: char) -> (r: &str)
    ensures
        r@ == trim_trailing(s@, c),
{
    s.trim_end_matches(c)
}

/// `s` with every trailing `c` removed.
pub open spec fn trim_trailing(s: Seq<char>, c: char) -> Seq<char>
    decreases s.len(),
{
    if s.len() > 0 && s.last() == c {
        trim_trailing(s.drop_last(), c)
    } else {
        s
    }
}

/// A line without its trailing line ending (`\n`, `\r\n`, `\r` or `\n\r`).
pub open spec fn strip_ending(line: Seq<char>) -> Seq<char> {
    trim_trailing(trim_trailing(trim_trailing(line, '\n'), '\r'), '\n')
}

/// Line ending of a line of text
#[derive(Clone, Copy, Debug, PartialEq, Eq, Hash, Structural)]
pub enum LineEnding {
    /// `\n`
    Lf,
    /// `\r\n`
    CrLf,
    /// `\r`
    Cr,
    /// `\n\r`
    LfCr,
    /// No line ending
    NoEnding,
}

impl Default for LineEnding {
    fn default() -> (e: Self)
        ensures
            e == LineEnding::Lf,
    {
        LineEnding::Lf
    }
}

/// The ending of a line, from its last two characters.
pub open spec fn spec_detect_ending(line: Seq<char>) -> LineEnding {
    let n = line.len() as int;
    if n == 0 {
        LineEnding::NoEnding
    } else if n >= 2 && line[n - 2] == '\r' && line[n - 1] == '\n' {
        LineEnding::CrLf
    } else if n >= 2 && line[n - 2] == '\n' && line[n - 1] == '\r' {
        LineEnding::LfCr
    } else if line[n - 1] == '\n' {
        LineEnding::Lf
    } else if line[n - 1] == '\r' {
        LineEnding::Cr
    } else {
        LineEnding::NoEnding
    }
}

/// The ending of line `i` of `s`, none for a line past the end.
pub open spec fn spec_detect_line(s: Seq<char>, i: int) -> LineEnding {
    if 0 <= i < rope_lines(s).len() {
        spec_detect_ending(rope_lines(s)[i])
    } else {
        LineEnding::NoEnding
    }
}

pub open spec fn nones(k: nat) -> Seq<Option<LineEnding>> {
    Seq::new(k, |i: int| None::<LineEnding>)
}

/// The ending cache after an insertion into line `line_before` that made the text
/// `new_count` lines long: one unknown entry more per line beyond the cache's length,
/// placed after that line, and that line's entry forgotten.
pub open spec fn endings_after_insert(
    le: Seq<Option<LineEnding>>,
    line_before: int,
    new_count: int,
) -> Seq<Option<LineEnding>> {
    let added: nat = if new_count > le.len() {
        (new_count - le.len()) as nat
    } else {
        0
    };
    let pos = line_before + 1;
    let grown = if added == 0 {
        le
    } else if pos < le.len() {
        le.take(pos) + nones(added) + le.skip(pos)
    } else {
        le + nones(added)
    };
    if line_before < grown.len() {
        grown.update(line_before, None)
    } else {
        grown
    }
}

/// The ending cache after a deletion from line `start_line` to line `end_line` that
/// left the text `new_count` lines long: the entries after the start line dropped,
/// one per line break removed, the cache cut to the line count, and the start line's
/// entry forgotten.
pub open spec fn endings_after_delete(
    le: Seq<Option<LineEnding>>,
    start_line: int,
    end_line: int,
    new_count: int,
) -> Seq<Option<LineEnding>> {
    let remove_count = if end_line > start_line {
        end_line - start_line
    } else {
        0
    };
    let p = start_line + 1;
    let removed = if p < le.len() {
        let m = if remove_count < le.len() - p {
            remove_count
        } else {
            le.len() - p
        };
        le.take(p) + le.skip(p + m)
    } else {
        le
    };
    let cut = if new_count < removed.len() {
        removed.take(new_count)
    } else {
        removed
    };
    if start_line < cut.len() {
        cut.update(start_line, None)
    } else {
        cut
    }
}

/// The cache grown with unknown entries to cover line `i`.
pub open spec fn endings_covering(le: Seq<Option<LineEnding>>, i: int) -> Seq<Option<LineEnding>> {
    if le.len() <= i {
        le + nones((i + 1 - le.len()) as nat)
    } else {
        le
    }
}

pub proof fn lemma_rope_lines_nonempty(s: Seq<char>)
    ensures
        rope_lines(s).len() >= 1,
    decreases s.len(),
{
    if s.len() > 0 {
        lemma_rope_lines_nonempty(s.drop_last());
    }
}

proof fn lemma_lines_grow(s: Seq<char>, c: int)
    requires
        0 <= c <= s.len(),
    ensures
        rope_lines(s.take(c)).len() <= rope_lines(s).len(),
    decreases s.len() - c,
{
    if c < s.len() {
        lemma_lines_grow(s, c + 1);
        assert(s.take(c + 1).drop_last() =~= s.take(c));
        lemma_rope_lines_nonempty(s.take(c));
    } else {
        assert(s.take(c) =~= s);
    }
}

/// The line of a position is one of the lines.
proof fn lemma_char_to_line_bound(s: Seq<char>, c: int)
    requires
        0 <= c <= s.len(),
    ensures
        spec_char_to_line(s, c) < rope_lines(s).len(),
{
    lemma_lines_grow(s, c);
    lemma_rope_lines_nonempty(s.take(c));
    if 0 < c < s.len() && s[c - 1] == '\r' && s[c] == '\n' {
        let t = s.take(c);
        assert(t.last() == '\r');
        lemma_rope_lines_nonempty(t.drop_last());
    }
}

proof fn lemma_byte_to_char_bounds(s: Seq<char>, b1: int, b2: int)
    requires
        b1 <= b2,
    ensures
        spec_byte_to_char(s, b1) <= spec_byte_to_char(s, b2),
        spec_byte_to_char(s, b2) <= s.len(),
    decreases s.len(),
{
    if s.len() > 0 {
        let w = encode_scalar(s[0] as u32).len() as int;
        lemma_byte_to_char_bounds(s.drop_first(), b1 - w, b2 - w);
    }
}

/// The byte where a first part ends is where its last character's successor starts:
/// the char index of that byte in the joined text is the first part's length.
proof fn lemma_byte_to_char_at_join(p: Seq<char>, q: Seq<char>)
    ensures
        spec_byte_to_char(p + q, utf8_len(p) as int) == p.len(),
    decreases p.len(),
{
    if p.len() == 0 {
        assert(p + q =~= q);
        if q.len() > 0 {
            assert(encode_scalar(q[0] as u32).len() >= 1);
        }
    } else {
        let pq = p + q;
        assert(pq[0] == p[0]);
        assert(pq.drop_first() =~= p.drop_first() + q);
        assert(encode_utf8(p) =~= encode_scalar(p[0] as u32) + encode_utf8(p.drop_first()));
        lemma_byte_to_char_at_join(p.drop_first(), q);
    }
}

/// Inserting text where character `c` starts and then deleting the bytes inserted
/// gives the text back: the insertion lands at char `c`, and the deletion removes
/// exactly the inserted characters.
pub proof fn lemma_insert_then_delete_text(t: Seq<char>, c: int, x: Seq<char>)
    requires
        0 <= c <= t.len(),
    ensures
        ({
            let b = utf8_len(t.take(c)) as int;
            let ic = spec_byte_to_char(t, b) as int;
            let t1 = t.take(ic) + x + t.skip(ic);
            let sc = spec_byte_to_char(t1, b) as int;
            let ec = spec_byte_to_char(t1, b + utf8_len(x)) as int;
            &&& ic == c
            &&& t1.take(sc) + t1.skip(ec) == t
        }),
{
    let b = utf8_len(t.take(c)) as int;
    assert(t.take(c) + t.skip(c) =~= t);
    lemma_byte_to_char_at_join(t.take(c), t.skip(c));
    let t1 = t.take(c) + x + t.skip(c);
    assert(t1 =~= t.take(c) + (x + t.skip(c)));
    lemma_byte_to_char_at_join(t.take(c), x + t.skip(c));
    assert(t1 =~= (t.take(c) + x) + t.skip(c));
    crate::strings::lemma_encode_concat(t.take(c), x);
    lemma_byte_to_char_at_join(t.take(c) + x, t.skip(c));
    assert(t1.take(c) =~= t.take(c));
    assert(t1.skip(c + x.len()) =~= t.skip(c));
}

/// A rope-based text storage optimized for line operations.
///
/// This provides efficient O(log n) access to lines and supports
/// efficient insertion and deletion at arbitrary positions.
pub struct RopeText {
    rope: Rope,
    /// Cached line endings for each line (None means we need to detect)
    line_endings: Vec<Option<LineEnding>>,
}

impl RopeText {
    /// The text held.
    pub closed spec fn text(&self) -> Seq<char> {
        rope_chars(self.rope)
    }

    /// The cached line endings, by line.
    pub closed spec fn endings(&self) -> Seq<Option<LineEnding>> {
        self.line_endings@
    }

    /// Create a new empty `RopeText`.
    pub fn new() -> (r: Self)
        ensures
            r.text() == Seq::<char>::empty(),
            r.endings() == Seq::<Option<LineEnding>>::empty(),
    {
        Self { rope: rope_new(), line_endings: Vec::new() }
    }

    /// Create a `RopeText` from a string.
    pub fn from_str(text: &str) -> (r: Self)
        ensures
            r.text() == text@,
            r.endings() == nones(rope_lines(text@).len()),
    {
        let rope = rope_from_str(text);
        let line_count = rope_len_lines(&rope);
        let line_endings = vec_of_nones(line_count);
        Self { rope, line_endings }
    }

    /// Get the number of lines in the text.
    pub fn line_count(&self) -> (n: usize)
        ensures
            n == rope_lines(self.text()).len(),
    {
        rope_len_lines(&self.rope)
    }

    /// Get the total length in bytes.
    pub fn len_bytes(&self) -> (n: usize)
        ensures
            n == utf8_len(self.text()),
    {
        rope_len_bytes(&self.rope)
    }

    /// Check if the text is empty.
    pub fn is_empty(&self) -> (r: bool)
        ensures
            r == (utf8_len(self.text()) == 0),
    {
        rope_len_bytes(&self.rope) == 0
    }

    /// Get a line by index, with its line break. Returns `None` if the line index is out
    /// of bounds.
    pub fn line(&self, line_idx: usize) -> (r: Option<String>)
        ensures
            match r {
                Some(s) => line_idx < rope_lines(self.text()).len() && s@ == rope_lines(
                    self.text(),
                )[line_idx as int],
                None => line_idx >= rope_lines(self.text()).len(),
            },
    {
        if line_idx < rope_len_lines(&self.rope) {
            Some(rope_line_string(&self.rope, line_idx))
        } else {
            None
        }
    }

    /// Get the text of a line without its line ending. Returns `None` if the line index
    /// is out of bounds.
    pub fn line_text(&self, line_idx: usize) -> (r: Option<String>)
        ensures
            match r {
                Some(s) => line_idx < rope_lines(self.text()).len() && s@ == strip_ending(
                    rope_lines(self.text())[line_idx as int],
                ),
                None => line_idx >= rope_lines(self.text()).len(),
            },
    {
        let line = self.line(line_idx)?;
        Some(line_without_ending(line.as_str()))
    }

    /// Get the byte offset of the start of a line.
    pub fn line_to_byte(&self, line_idx: usize) -> (b: usize)
        requires
            line_idx <= rope_lines(self.text()).len(),
        ensures
            b == spec_line_to_byte(self.text(), line_idx as int),
    {
        rope_line_to_byte(&self.rope, line_idx)
    }

    /// Get the line index for a byte offset.
    pub fn byte_to_line(&self, byte_idx: usize) -> (l: usize)
        requires
            byte_idx <= utf8_len(self.text()),
        ensures
            l == spec_char_to_line(
                self.text(),
                spec_byte_to_char(self.text(), byte_idx as int) as int,
            ),
    {
        rope_byte_to_line(&self.rope, byte_idx)
    }

    /// Get the byte offset of the start of a line, returning None if out of bounds.
    pub fn try_line_to_byte(&self, line_idx: usize) -> (r: Option<usize>)
        ensures
            r == if line_idx <= rope_lines(self.text()).len() {
                Some(spec_line_to_byte(self.text(), line_idx as int) as usize)
            } else {
                None::<usize>
            },
    {
        if line_idx <= rope_len_lines(&self.rope) {
            Some(rope_line_to_byte(&self.rope, line_idx))
        } else {
            None
        }
    }

    /// Get the char offset of the start of a line.
    pub fn line_to_char(&self, line_idx: usize) -> (c: usize)
        requires
            line_idx <= rope_lines(self.text()).len(),
        ensures
            c == spec_line_to_char(self.text(), line_idx as int),
    {
        rope_line_to_char(&self.rope, line_idx)
    }

    /// Get the line index for a char offset.
    pub fn char_to_line(&self, char_idx: usize) -> (l: usize)
        requires
            char_idx <= self.text().len(),
        ensures
            l == spec_char_to_line(self.text(), char_idx as int),
    {
        rope_char_to_line(&self.rope, char_idx)
    }

    /// Replace all text with new content.
    pub fn set_text(&mut self, text: &str)
        ensures
            final(self).text() == text@,
            final(self).endings() == nones(rope_lines(text@).len()),
    {
        self.rope = rope_from_str(text);
        let n = rope_len_lines(&self.rope);
        self.line_endings = vec_of_nones(n);
    }

    /// Insert text at a byte offset.
    pub fn insert(&mut self, byte_offset: usize, text: &str)
        requires
            byte_offset <= utf8_len(old(self).text()),
        ensures
            ({
                let c = spec_byte_to_char(old(self).text(), byte_offset as int) as int;
                let new_text = old(self).text().take(c) + text@ + old(self).text().skip(c);
                &&& final(self).text() == new_text
                &&& final(self).endings() == endings_after_insert(
                    old(self).endings(),
                    spec_char_to_line(old(self).text(), c) as int,
                    rope_lines(new_text).len() as int,
                )
            }),
    {
        let ghost t0 = self.text();
        proof {
            lemma_byte_to_char_bounds(t0, byte_offset as int, byte_offset as int);
        }
        let old_line_count = rope_len_lines(&self.rope);
        let char_offset = rope_byte_to_char(&self.rope, byte_offset);
        let line_before = rope_char_to_line(&self.rope, char_offset);
        proof {
            lemma_char_to_line_bound(t0, char_offset as int);
        }
        rope_insert(&mut self.rope, char_offset, text);
        let ghost t1 = self.text();
        let new_line_count = rope_len_lines(&self.rope);
        let lines_added = new_line_count.saturating_sub(self.line_endings.len());
        let ghost le0 = self.line_endings@;
        if lines_added > 0 {
            let insert_pos = line_before + 1;
            let mut k: usize = 0;
            while k < lines_added
                invariant
                    k <= lines_added,
                    insert_pos == line_before + 1,
                    self.text() == t1,
                    self.line_endings@ == if insert_pos < le0.len() {
                        le0.take(insert_pos as int) + nones(k as nat) + le0.skip(insert_pos as int)
                    } else {
                        le0 + nones(k as nat)
                    },
                decreases lines_added - k,
            {
                if insert_pos < self.line_endings.len() {
                    self.line_endings.insert(insert_pos, None);
                } else {
                    self.line_endings.push(None);
                }
                k = k + 1;
                assert(self.line_endings@ =~= if insert_pos < le0.len() {
                    le0.take(insert_pos as int) + nones(k as nat) + le0.skip(insert_pos as int)
                } else {
                    le0 + nones(k as nat)
                });
            }
        }
        if line_before < self.line_endings.len() {
            self.line_endings.set(line_before, None);
        }
    }

    /// Delete a byte range.
    pub fn delete(&mut self, start_byte: usize, end_byte: usize)
        requires
            start_byte < end_byte ==> end_byte <= utf8_len(old(self).text()),
        ensures
            start_byte >= end_byte ==> *final(self) == *old(self),
            start_byte < end_byte ==> ({
                let t = old(self).text();
                let sc = spec_byte_to_char(t, start_byte as int) as int;
                let ec = spec_byte_to_char(t, end_byte as int) as int;
                let new_text = t.take(sc) + t.skip(ec);
                &&& final(self).text() == new_text
                &&& final(self).endings() == endings_after_delete(
                    old(self).endings(),
                    spec_char_to_line(t, sc) as int,
                    spec_char_to_line(
                        t,
                        if ec > 0 {
                            ec - 1
                        } else {
                            0
                        },
                    ) as int,
                    rope_lines(new_text).len() as int,
                )
            }),
    {
        if start_byte >= end_byte {
            return;
        }
        let ghost t0 = self.text();
        proof {
            lemma_byte_to_char_bounds(t0, start_byte as int, end_byte as int);
        }
        let start_char = rope_byte_to_char(&self.rope, start_byte);
        let end_char = rope_byte_to_char(&self.rope, end_byte);
        let start_line = rope_char_to_line(&self.rope, start_char);
        let end_line = rope_char_to_line(&self.rope, end_char.saturating_sub(1));
        let old_line_count = rope_len_lines(&self.rope);
        proof {
            lemma_char_to_line_bound(t0, start_char as int);
        }
        rope_remove(&mut self.rope, start_char, end_char);
        let ghost t1 = self.text();
        let new_line_count = rope_len_lines(&self.rope);
        let ghost le0 = self.line_endings@;
        if end_line > start_line {
            let remove_count = end_line - start_line;
            let mut k: usize = 0;
            while k < remove_count
                invariant
                    self.text() == t1,
                    start_line < old_line_count,
                    k <= remove_count,
                    remove_count == end_line - start_line,
                    start_line < end_line,
                    self.line_endings@ == if start_line + 1 < le0.len() {
                        let m = if k < le0.len() - (start_line + 1) {
                            k as int
                        } else {
                            le0.len() - (start_line + 1)
                        };
                        le0.take(start_line + 1) + le0.skip(start_line + 1 + m)
                    } else {
                        le0
                    },
                decreases remove_count - k,
            {
                if start_line + 1 < self.line_endings.len() {
                    self.line_endings.remove(start_line + 1);
                }
                k = k + 1;
                assert(self.line_endings@ =~= if start_line + 1 < le0.len() {
                    let m = if k < le0.len() - (start_line + 1) {
                        k as int
                    } else {
                        le0.len() - (start_line + 1)
                    };
                    le0.take(start_line + 1) + le0.skip(start_line + 1 + m)
                } else {
                    le0
                });
            }
        } else {
            proof {
                if start_line + 1 < le0.len() {
                    assert(le0.take(start_line + 1) + le0.skip(start_line + 1) =~= le0);
                }
            }
        }
        self.line_endings.truncate(new_line_count);
        if start_line < self.line_endings.len() {
            self.line_endings.set(start_line, None);
        }
    }

    /// Get a slice of the text between two byte offsets, as a string.
    pub fn slice(&self, start_byte: usize, end_byte: usize) -> (s: String)
        requires
            start_byte <= end_byte <= utf8_len(self.text()),
        ensures
            s@ == self.text().subrange(
                spec_byte_to_char(self.text(), start_byte as int) as int,
                spec_byte_to_char(self.text(), end_byte as int) as int,
            ),
    {
        proof {
            lemma_byte_to_char_bounds(self.text(), start_byte as int, end_byte as int);
        }
        let start_char = rope_byte_to_char(&self.rope, start_byte);
        let end_char = rope_byte_to_char(&self.rope, end_byte);
        rope_slice_string(&self.rope, start_char, end_char)
    }

    /// Get the underlying rope.
    pub fn rope(&self) -> (r: &Rope)
        ensures
            rope_chars(*r) == self.text(),
    {
        &self.rope
    }

    /// Detect the line ending for a specific line.
    pub fn detect_line_ending(&self, line_idx: usize) -> (e: LineEnding)
        ensures
            e == spec_detect_line(self.text(), line_idx as int),
    {
        match self.line(line_idx) {
            Some(line) => detect_line_ending_from_str(line.as_str()),
            None => LineEnding::NoEnding,
        }
    }

    /// Get or detect the line ending for a line, caching the result.
    pub fn line_ending(&mut self, line_idx: usize) -> (e: LineEnding)
        requires
            line_idx < usize::MAX,
        ensures
            final(self).text() == old(self).text(),
            e == match endings_covering(old(self).endings(), line_idx as int)[line_idx as int] {
                Some(cached) => cached,
                None => spec_detect_line(old(self).text(), line_idx as int),
            },
            final(self).endings() == endings_covering(old(self).endings(), line_idx as int).update(
                line_idx as int,
                Some(e),
            ),
    {
        self.cover_line(line_idx);
        match self.line_endings[line_idx] {
            Some(ending) => {
                proof {
                    assert(self.line_endings@.update(line_idx as int, Some(ending))
                        =~= self.line_endings@);
                }
                ending
            },
            None => {
                let ending = self.detect_line_ending(line_idx);
                self.line_endings.set(line_idx, Some(ending));
                ending
            },
        }
    }

    /// Grows the cache with unknown entries so that it covers line `line_idx`.
    fn cover_line(&mut self, line_idx: usize)
        requires
            line_idx < usize::MAX,
        ensures
            final(self).text() == old(self).text(),
            final(self).endings() == endings_covering(old(self).endings(), line_idx as int),
            final(self).endings().len() > line_idx,
    {
        let ghost le0 = self.line_endings@;
        while self.line_endings.len() <= line_idx
            invariant
                line_idx < usize::MAX,
                self.text() == old(self).text(),
                le0 == old(self).endings(),
                self.line_endings@.len() >= le0.len(),
                self.line_endings@.len() <= line_idx + 1 || self.line_endings@ == le0,
                self.line_endings@ == le0 + nones((self.line_endings@.len() - le0.len()) as nat),
            decreases line_idx + 1 - self.line_endings@.len(),
        {
            let ghost before = self.line_endings@;
            self.line_endings.push(None);
            assert(self.line_endings@ =~= le0 + nones((self.line_endings@.len() - le0.len()) as nat));
        }
        assert(le0 + nones(0) =~= le0);
    }

    /// Set the line ending for a specific line (used when editing).
    pub fn set_line_ending(&mut self, line_idx: usize, ending: LineEnding)
        requires
            line_idx < usize::MAX,
        ensures
            final(self).text() == old(self).text(),
            final(self).endings() == endings_covering(old(self).endings(), line_idx as int).update(
                line_idx as int,
                Some(ending),
            ),
    {
        self.cover_line(line_idx);
        self.line_endings.set(line_idx, Some(ending));
    }

    /// Clear all cached line endings.
    pub fn clear_line_endings_cache(&mut self)
        ensures
            final(self).text() == old(self).text(),
            final(self).endings() == nones(old(self).endings().len()),
    {
        let n = self.line_endings.len();
        let mut i: usize = 0;
        while i < n
            invariant
                n == self.line_endings@.len(),
                n == old(self).endings().len(),
                self.text() == old(self).text(),
                i <= n,
                forall|k: int| 0 <= k < i ==> self.line_endings@[k] is None,
            decreases n - i,
        {
            self.line_endings.set(i, None);
            i = i + 1;
        }
        assert(self.line_endings@ =~= nones(n as nat));
    }

    /// Convert the entire text to a String.
    pub fn to_string(&self) -> (s: String)
        ensures
            s@ == self.text(),
    {
        rope_to_string(&self.rope)
    }
}

impl Default for RopeText {
    fn default() -> (r: Self)
        ensures
            r.text() == Seq::<char>::empty(),
            r.endings() == Seq::<Option<LineEnding>>::empty(),
    {
        Self::new()
    }
}

fn vec_of_nones(n: usize) -> (v: Vec<Option<LineEnding>>)
    ensures
        v@ == nones(n as nat),
{
    let mut v: Vec<Option<LineEnding>> = Vec::new();
    let mut i: usize = 0;
    while i < n
        invariant
            i <= n,
            v@ == nones(i as nat),
        decreases n - i,
    {
        v.push(None);
        i = i + 1;
        assert(v@ =~= nones(i as nat));
    }
    v
}

/// Get line text without trailing line ending.
fn line_without_ending(line: &str) -> (s: String)
    ensures
        s@ == strip_ending(line@),
{
    let a = str_trim_end_matches(line, '\n');
    let b = str_trim_end_matches(a, '\r');
    let c = str_trim_end_matches(b, '\n');
    c.to_owned()
}

/// Detect line ending from a line's text.
fn detect_line_ending_from_str(line: &str) -> (e: LineEnding)
    ensures
        e == spec_detect_ending(line@),
{
    let mut second_last: Option<char> = None;
    let mut last: Option<char> = None;
    let ghost s = line@;
    for c in it: line.chars()
        invariant
            it.seq() == s,
            last == if it.index() >= 1 {
                Some(s[it.index() - 1])
            } else {
                None::<char>
            },
            second_last == if it.index() >= 2 {
                Some(s[it.index() - 2])
            } else {
                None::<char>
            },
    {
        second_last = last;
        last = Some(c);
    }
    match (second_last, last) {
        (Some('\r'), Some('\n')) => LineEnding::CrLf,
        (Some('\n'), Some('\r')) => LineEnding::LfCr,
        (_, Some('\n')) => LineEnding::Lf,
        (_, Some('\r')) => LineEnding::Cr,
        _ => LineEnding::NoEnding,
    }
}

} // verus!
