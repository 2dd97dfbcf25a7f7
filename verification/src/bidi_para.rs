//! Splitting text into paragraphs the way the Unicode bidirectional algorithm does:
//! a paragraph ends after each paragraph separator (various newline characters).

use vstd::prelude::*;
use unicode_bidi::{BidiClass, BidiInfo};

use crate::strings::{
    at_char_boundary, byte_len, byte_prefix, byte_suffix, char_len, lemma_split_at_join, split_at_byte,
};

verus! {

broadcast use vstd::utf8::group_utf8_lib;

/// The character has the bidirectional class B, a paragraph separator: line feed,
/// carriage return, the information separators 1C to 1E, next line, and the
/// paragraph separator.
pub open spec fn paragraph_separator(c: char) -> bool {
    let v = c as u32;
    v == 0x0a || v == 0x0d || (0x1c <= v && v <= 0x1e) || v == 0x85 || v == 0x2029
}

/// The paragraphs of `cs` from character `i` on, the current one starting at
/// character `start`, as ranges of characters: each ends after a separator, and
/// the last at the end of the text.
pub open spec fn para_ranges_from(cs: Seq<char>, i: int, start: int) -> Seq<(int, int)>
    decreases cs.len() - i,
{
    if i >= cs.len() {
        if start < cs.len() {
            seq![(start, cs.len() as int)]
        } else {
            Seq::empty()
        }
    } else if paragraph_separator(cs[i]) {
        seq![(start, i + 1)] + para_ranges_from(cs, i + 1, i + 1)
    } else {
        para_ranges_from(cs, i + 1, start)
    }
}

/// The paragraphs of a text, as ranges of characters.
pub open spec fn para_ranges(cs: Seq<char>) -> Seq<(int, int)> {
    para_ranges_from(cs, 0, 0)
}

/// A range of characters as a range of bytes.
pub open spec fn byte_range(cs: Seq<char>, r: (int, int)) -> (usize, usize) {
    (byte_len(cs.take(r.0)) as usize, byte_len(cs.take(r.1)) as usize)
}

/// `unicode_bidi::bidi_class`: whether the character's bidirectional class is B; the
/// crate's class table gives B to exactly the characters `paragraph_separator` lists.
#[verifier::external_body]
fn is_paragraph_separator(c: char) -> (r: bool)
    ensures
        r == paragraph_separator(c),
{
    match unicode_bidi::bidi_class(c) {
        BidiClass::B => true,
        _ => false,
    }
}

/// `BidiInfo::new`: the byte ranges of the text's paragraphs. The crate walks the
/// characters and ends a paragraph after each one of class B, keeping the separator
/// with the paragraph it ends, and ends the last paragraph at the end of the text
/// where it is not empty.
#[verifier::external_body]
fn paragraph_byte_ranges(text: &str) -> (r: Vec<(usize, usize)>)
    ensures
        r@ == para_ranges(text@).map_values(|p: (int, int)| byte_range(text@, p)),
{
    BidiInfo::new(text, None).paragraphs.iter().map(|p| (p.range.start, p.range.end)).collect()
}

/// Whether the first paragraph of a text runs right to left, as `BidiInfo::new` with
/// no default level resolves its level (from its first strong character); `None`
/// for a text with no paragraph.
pub uninterp spec fn first_paragraph_rtl(text: Seq<char>) -> Option<bool>;

/// A character that is neither strong nor a paragraph separator: a tab, or a
/// printable ASCII character other than a letter (bidi classes S, WS, EN, ES, ET, CS
/// and ON).
pub open spec fn weak_ascii(c: char) -> bool {
    let v = c as u32;
    v == 0x09 || (0x20 <= v && v <= 0x7e && !(0x41 <= v && v <= 0x5a) && !(0x61 <= v && v <= 0x7a))
}

/// A strong left-to-right character (bidi class L): an ASCII or a Latin-1 letter.
pub open spec fn strong_ltr(c: char) -> bool {
    let v = c as u32;
    (0x41 <= v && v <= 0x5a) || (0x61 <= v && v <= 0x7a) || (0xc0 <= v && v <= 0xff && v != 0xd7 && v
        != 0xf7)
}

/// A strong right-to-left character (bidi class R or AL): a Hebrew letter or an
/// Arabic letter.
pub open spec fn strong_rtl(c: char) -> bool {
    let v = c as u32;
    (0x5d0 <= v && v <= 0x5ea) || (0x627 <= v && v <= 0x63a) || (0x641 <= v && v <= 0x64a)
}

/// The first strong character of `t` has the direction `rtl`, and only weak
/// characters come before it.
pub open spec fn first_strong_is(t: Seq<char>, rtl: bool) -> bool {
    exists|j: int|
        0 <= j < t.len() && (forall|i: int| 0 <= i < j ==> weak_ascii(#[trigger] t[i])) && (if rtl {
            strong_rtl(t[j])
        } else {
            strong_ltr(t[j])
        })
}

/// `BidiInfo::new`: the direction of the text's first paragraph, `None` where the
/// text has no paragraph, which is so exactly for the empty text. With no default
/// level the crate sets a paragraph's level from its first strong character outside
/// isolates (rules P2 and P3): right to left for R or AL, left to right for L or
/// where there is none. `first_strong_is` states that for texts that start with
/// weak ASCII characters and then a letter of a known direction; the bidi classes of
/// other characters are left to the name.
#[verifier::external_body]
pub(crate) fn paragraph_direction(text: &str) -> (r: Option<bool>)
    ensures
        r == first_paragraph_rtl(text@),
        r is None <==> text@.len() == 0,
        first_strong_is(text@, false) ==> r == Some(false),
        first_strong_is(text@, true) ==> r == Some(true),
{
    BidiInfo::new(text, None).paragraphs.first().map(|p| p.level.is_rtl())
}

/// The text of a paragraph, without the separator that ends it.
pub open spec fn paragraph_text(cs: Seq<char>, r: (int, int)) -> Seq<char> {
    let p = cs.subrange(r.0, r.1);
    if p.len() > 0 && paragraph_separator(p.last()) {
        p.drop_last()
    } else {
        p
    }
}

/// The paragraphs found lie in order within the text, each non-empty.
proof fn lemma_para_ranges_bounds(cs: Seq<char>, i: int, start: int)
    requires
        0 <= start <= i <= cs.len(),
    ensures
        forall|j: int| 0 <= j < para_ranges_from(cs, i, start).len() ==> {
            let r = #[trigger] para_ranges_from(cs, i, start)[j];
            start <= r.0 < r.1 <= cs.len()
        },
    decreases cs.len() - i,
{
    if i >= cs.len() {
        if start < cs.len() {
            assert(para_ranges_from(cs, i, start) == seq![(start, cs.len() as int)]);
        } else {
            assert(para_ranges_from(cs, i, start).len() == 0);
        }
    } else {
        if paragraph_separator(cs[i]) {
            lemma_para_ranges_bounds(cs, i + 1, i + 1);
            let rest = para_ranges_from(cs, i + 1, i + 1);
            let all = seq![(start, i + 1)] + rest;
            assert forall|j: int| 0 <= j < all.len() implies {
                let r = #[trigger] all[j];
                start <= r.0 < r.1 <= cs.len()
            } by {
                if j > 0 {
                    assert(all[j] == rest[j - 1]);
                }
            }
        } else {
            lemma_para_ranges_bounds(cs, i + 1, start);
            assert(para_ranges_from(cs, i, start) == para_ranges_from(cs, i + 1, start));
        }
    }
}

/// The byte range of the `i`th paragraph lies on character boundaries, and cutting
/// it out of the text gives the paragraph's characters.
proof fn lemma_paragraph_bytes(cs: Seq<char>, i: int)
    requires
        0 <= i < para_ranges(cs).len(),
        byte_len(cs) <= usize::MAX,
    ensures
        ({
            let r = para_ranges(cs)[i];
            let br = byte_range(cs, r);
            &&& 0 <= r.0 < r.1 <= cs.len()
            &&& br.0 <= br.1
            &&& at_char_boundary(cs, br.0 as int)
            &&& byte_suffix(cs, br.0 as int) == cs.skip(r.0)
            &&& at_char_boundary(cs.skip(r.0), (br.1 - br.0) as int)
            &&& byte_prefix(cs.skip(r.0), (br.1 - br.0) as int) == cs.subrange(r.0, r.1)
        }),
{
    lemma_para_ranges_bounds(cs, 0, 0);
    let r = para_ranges(cs)[i];
    assert(0 <= r.0 < r.1 <= cs.len());
    lemma_byte_range_cut(cs, r.0, r.1);
    crate::strings::lemma_byte_len_take(cs, r.0);
}

/// The bytes of a range of characters cut out of the text give those characters.
pub(crate) proof fn lemma_byte_range_cut(cs: Seq<char>, a: int, b: int)
    requires
        0 <= a <= b <= cs.len(),
    ensures
        at_char_boundary(cs, byte_len(cs.take(a)) as int),
        byte_suffix(cs, byte_len(cs.take(a)) as int) == cs.skip(a),
        at_char_boundary(cs.skip(a), byte_len(cs.subrange(a, b)) as int),
        byte_prefix(cs.skip(a), byte_len(cs.subrange(a, b)) as int) == cs.subrange(a, b),
        byte_len(cs.take(b)) == byte_len(cs.take(a)) + byte_len(cs.subrange(a, b)),
        byte_len(cs.take(b)) <= byte_len(cs),
{
    assert(cs =~= cs.take(a) + cs.skip(a));
    lemma_split_at_join(cs.take(a), cs.skip(a));
    assert(cs.skip(a) =~= cs.subrange(a, b) + cs.skip(b));
    lemma_split_at_join(cs.subrange(a, b), cs.skip(b));
    assert(cs.take(b) =~= cs.take(a) + cs.subrange(a, b));
    lemma_split_at_join(cs.take(a), cs.subrange(a, b));
    assert(cs =~= cs.take(b) + cs.skip(b));
    lemma_split_at_join(cs.take(b), cs.skip(b));
}

/// The last character of a text, if any.
fn last_char(s: &str) -> (r: Option<char>)
    ensures
        r == if s@.len() > 0 {
            Some(s@.last())
        } else {
            None::<char>
        },
{
    let mut last: Option<char> = None;
    for c in it: s.chars()
        invariant
            it.seq() == s@,
            last == if it.index() > 0 {
                Some(s@[it.index() - 1])
            } else {
                None::<char>
            },
    {
        last = Some(c);
    }
    last
}

/// An iterator over the paragraphs in the input text, without the separators that
/// end them.
pub struct BidiParagraphs<'text> {
    text: &'text str,
    ranges: Vec<(usize, usize)>,
    next_i: usize,
}

impl<'text> BidiParagraphs<'text> {
    /// The paragraphs not handed out yet.
    pub closed spec fn remaining(&self) -> Seq<Seq<char>> {
        para_ranges(self.text@).skip(self.next_i as int).map_values(|r: (int, int)| paragraph_text(self.text@, r))
    }

    /// What every iterator keeps: its ranges are those of its text.
    pub closed spec fn wf(&self) -> bool {
        &&& self.ranges@ == para_ranges(self.text@).map_values(|p: (int, int)| byte_range(self.text@, p))
        &&& self.next_i <= self.ranges@.len()
    }

    /// Create an iterator to split the input text into paragraphs in accordance with
    /// the bidirectional algorithm.
    pub fn new(text: &'text str) -> (it: Self)
        ensures
            it.wf(),
            it.text_view() == text@,
            it.done() == 0,
            it.remaining() == para_ranges(text@).map_values(|r: (int, int)| paragraph_text(text@, r)),
    {
        let ranges = paragraph_byte_ranges(text);
        let it = Self { text, ranges, next_i: 0 };
        proof {
            assert(para_ranges(text@).skip(0) =~= para_ranges(text@));
        }
        it
    }

    /// The text being split.
    pub closed spec fn text_view(&self) -> Seq<char> {
        self.text@
    }

    /// How many paragraphs were handed out.
    pub closed spec fn done(&self) -> nat {
        self.next_i as nat
    }

    /// The byte range of the next paragraph, without the separator that ends it;
    /// `None` after the last.
    pub fn next_range(&mut self) -> (r: Option<(usize, usize)>)
        requires
            old(self).wf(),
        ensures
            final(self).wf(),
            final(self).text_view() == old(self).text_view(),
            match r {
                Some((s, e)) => {
                    &&& old(self).done() < para_ranges(old(self).text_view()).len()
                    &&& (s as int, e as int) == paragraph_bytes(
                        old(self).text_view(),
                        para_ranges(old(self).text_view())[old(self).done() as int],
                    )
                    &&& final(self).done() == old(self).done() + 1
                },
                None => old(self).done() >= para_ranges(old(self).text_view()).len() && final(self).done()
                    == old(self).done(),
            },
    {
        let ghost cs = self.text@;
        let ghost pr = para_ranges(cs);
        if self.next_i >= self.ranges.len() {
            return None;
        }
        let i = self.next_i;
        let (s, e) = self.ranges[i];
        let text_bytes = self.text.as_bytes().len();
        proof {
            assert(self.ranges@[i as int] == byte_range(cs, pr[i as int]));
            lemma_paragraph_bytes(cs, i as int);
        }
        self.next_i = i + 1;
        let ghost r = pr[i as int];
        let (_, rest) = split_at_byte(self.text, s);
        let (para, _) = split_at_byte(rest, e - s);
        proof {
            assert(para@ == cs.subrange(r.0, r.1));
            lemma_paragraph_text_bytes(cs, r);
            crate::strings::lemma_byte_len_take(cs, r.1);
            lemma_byte_range_cut(cs, r.0, r.1);
        }
        match last_char(para) {
            Some(c) => {
                if is_paragraph_separator(c) {
                    proof {
                        let p = para@;
                        assert(p.drop_last().push(c) =~= p);
                        crate::strings::lemma_byte_len_push(p.drop_last(), c);
                    }
                    return Some((s, e - char_len(c)));
                }
                Some((s, e))
            },
            None => Some((s, e)),
        }
    }

    /// The next paragraph, without the separator that ends it; `None` after the last.
    pub fn next(&mut self) -> (r: Option<&'text str>)
        requires
            old(self).wf(),
        ensures
            final(self).wf(),
            match r {
                Some(p) => old(self).remaining().len() > 0 && p@ == old(self).remaining()[0]
                    && final(self).remaining() == old(self).remaining().drop_first(),
                None => old(self).remaining().len() == 0 && final(self).remaining() == old(self).remaining(),
            },
    {
        let ghost cs = self.text@;
        let ghost pr = para_ranges(cs);
        let ghost i = self.next_i as int;
        let text_bytes = self.text.as_bytes().len();
        match self.next_range() {
            Some((s, e)) => {
                let ghost r = pr[i];
                proof {
                    lemma_para_ranges_bounds(cs, 0, 0);
                    assert(0 <= r.0 < r.1 <= cs.len());
                    lemma_paragraph_text_bytes(cs, r);
                    let n = paragraph_text(cs, r).len();
                    lemma_byte_range_cut(cs, r.0, r.0 + n);
                    crate::strings::lemma_byte_len_take(cs, r.0);
                    assert(pr.skip(i + 1) =~= pr.skip(i).drop_first());
                    assert(pr.skip(i)[0] == r);
                }
                let (_, rest) = split_at_byte(self.text, s);
                let (para, _) = split_at_byte(rest, e - s);
                Some(para)
            },
            None => None,
        }
    }
}

/// A paragraph's byte range, without the separator that ends it.
pub open spec fn paragraph_bytes(cs: Seq<char>, r: (int, int)) -> (int, int) {
    let s = byte_len(cs.take(r.0)) as int;
    (s, s + byte_len(paragraph_text(cs, r)))
}

/// A paragraph's text is the characters from its start, up to its end or one before.
pub proof fn lemma_paragraph_text_bytes(cs: Seq<char>, r: (int, int))
    requires
        0 <= r.0 < r.1 <= cs.len(),
    ensures
        r.0 + paragraph_text(cs, r).len() <= r.1,
        r.1 - 1 <= r.0 + paragraph_text(cs, r).len(),
        paragraph_text(cs, r) == cs.subrange(r.0, r.0 + paragraph_text(cs, r).len()),
        byte_len(cs.take(r.0 + paragraph_text(cs, r).len())) == byte_len(cs.take(r.0)) + byte_len(paragraph_text(cs, r)),
{
    let p = cs.subrange(r.0, r.1);
    let n = paragraph_text(cs, r).len();
    if p.len() > 0 && paragraph_separator(p.last()) {
        assert(p.drop_last() =~= cs.subrange(r.0, r.1 - 1));
    } else {
        assert(p =~= cs.subrange(r.0, r.0 + n));
    }
    lemma_byte_range_cut(cs, r.0, r.0 + n);
}

} // verus!
