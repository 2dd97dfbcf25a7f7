//! UTF-8 text as characters and bytes: byte positions within a text, the text on
//! either side of such a position, and the `String` operations that editing uses.

use vstd::prelude::*;
use vstd::utf8::*;
use unicode_segmentation::UnicodeSegmentation;

verus! {

broadcast use vstd::utf8::group_utf8_lib;

/// Number of UTF-8 bytes of a text.
pub open spec fn byte_len(s: Seq<char>) -> nat {
    encode_utf8(s).len()
}

/// Byte `at` starts a character of `s`, or is its end.
pub open spec fn at_char_boundary(s: Seq<char>, at: int) -> bool {
    is_char_boundary(encode_utf8(s), at)
}

/// The characters of `s` whose bytes come before byte `at`.
pub open spec fn byte_prefix(s: Seq<char>, at: int) -> Seq<char> {
    decode_utf8(encode_utf8(s).subrange(0, at))
}

/// The characters of `s` whose bytes come from byte `at` on.
pub open spec fn byte_suffix(s: Seq<char>, at: int) -> Seq<char> {
    decode_utf8(encode_utf8(s).subrange(at, encode_utf8(s).len() as int))
}

/// The bytes of two texts one after the other are the bytes of the joined text.
pub proof fn lemma_encode_concat(a: Seq<char>, b: Seq<char>)
    ensures
        encode_utf8(a + b) == encode_utf8(a) + encode_utf8(b),
    decreases a.len(),
{
    if a.len() == 0 {
        assert(a + b =~= b);
        assert(encode_utf8(a) + encode_utf8(b) =~= encode_utf8(b));
    } else {
        let ab = a + b;
        assert(ab[0] == a[0]);
        assert(ab.drop_first() =~= a.drop_first() + b);
        lemma_encode_concat(a.drop_first(), b);
        assert(encode_utf8(ab) =~= encode_utf8(a) + encode_utf8(b));
    }
}

/// The end of a first part is a character boundary of the joined text.
proof fn lemma_boundary_at_join(a: Seq<char>, b: Seq<char>)
    ensures
        at_char_boundary(a + b, byte_len(a) as int),
    decreases a.len(),
{
    if a.len() > 0 {
        let ab = a + b;
        let bytes = encode_utf8(ab);
        encode_utf8_first_scalar(ab);
        assert(pop_first_scalar(bytes) =~= encode_utf8(ab.drop_first()));
        assert(ab.drop_first() =~= a.drop_first() + b);
        assert(ab[0] == a[0]);
        lemma_encode_concat(a, b);
        lemma_boundary_at_join(a.drop_first(), b);
    }
}

/// At a character boundary a text splits into its byte prefix and suffix, and the
/// prefix has exactly `at` bytes.
pub proof fn lemma_split_at_boundary(s: Seq<char>, at: int)
    requires
        at_char_boundary(s, at),
    ensures
        0 <= at <= byte_len(s),
        s == byte_prefix(s, at) + byte_suffix(s, at),
        byte_len(byte_prefix(s, at)) == at,
        byte_len(byte_suffix(s, at)) == byte_len(s) - at,
{
    let bytes = encode_utf8(s);
    valid_utf8_split(bytes, at);
    decode_utf8_split(bytes, at);
    decode_utf8_encode_utf8(bytes.subrange(0, at));
    decode_utf8_encode_utf8(bytes.subrange(at, bytes.len() as int));
}

/// A character boundary of a joined text that lies within its first part is a
/// boundary of that part.
pub proof fn lemma_boundary_in_first(a: Seq<char>, b: Seq<char>, at: int)
    requires
        at_char_boundary(a + b, at),
        at <= byte_len(a),
    ensures
        at_char_boundary(a, at),
    decreases a.len(),
{
    if at > 0 && a.len() > 0 {
        let ab = a + b;
        encode_utf8_first_scalar(ab);
        encode_utf8_first_scalar(a);
        assert(pop_first_scalar(encode_utf8(ab)) =~= encode_utf8(ab.drop_first()));
        assert(pop_first_scalar(encode_utf8(a)) =~= encode_utf8(a.drop_first()));
        assert(ab.drop_first() =~= a.drop_first() + b);
        assert(ab[0] == a[0]);
        lemma_encode_concat(ab.drop_first(), Seq::<char>::empty());
        let w = encode_scalar(a[0] as u32).len();
        assert(encode_utf8(a) =~= encode_scalar(a[0] as u32) + encode_utf8(a.drop_first()));
        if at < w {
            // a boundary inside the first character is impossible
            assert(at_char_boundary(a.drop_first() + b, at - w));
        } else {
            lemma_boundary_in_first(a.drop_first(), b, at - w);
        }
    } else if at > 0 {
        assert(a =~= Seq::<char>::empty());
        assert(encode_utf8(a).len() == 0);
    }
}

/// Splitting a joined text at the end of its first part gives the parts back.
pub proof fn lemma_split_at_join(a: Seq<char>, b: Seq<char>)
    ensures
        at_char_boundary(a + b, byte_len(a) as int),
        byte_prefix(a + b, byte_len(a) as int) == a,
        byte_suffix(a + b, byte_len(a) as int) == b,
        byte_len(a + b) == byte_len(a) + byte_len(b),
{
    lemma_boundary_at_join(a, b);
    lemma_encode_concat(a, b);
    let bytes = encode_utf8(a + b);
    assert(bytes.subrange(0, byte_len(a) as int) =~= encode_utf8(a));
    assert(bytes.subrange(byte_len(a) as int, bytes.len() as int) =~= encode_utf8(b));
}

/// Splitting a text anywhere inside its first part: the prefix stays in that part.
pub proof fn lemma_split_inside_first(a: Seq<char>, b: Seq<char>, at: int)
    requires
        at_char_boundary(a, at),
    ensures
        at_char_boundary(a + b, at),
        byte_prefix(a + b, at) == byte_prefix(a, at),
        byte_suffix(a + b, at) == byte_suffix(a, at) + b,
{
    lemma_split_at_boundary(a, at);
    let p = byte_prefix(a, at);
    let q = byte_suffix(a, at);
    assert(a + b =~= p + (q + b));
    lemma_split_at_join(p, q + b);
}

/// The byte length of a text one character longer.
pub proof fn lemma_byte_len_push(s: Seq<char>, c: char)
    ensures
        byte_len(s.push(c)) == byte_len(s) + encode_scalar(c as u32).len(),
{
    lemma_encode_concat(s, seq![c]);
    assert(s.push(c) =~= s + seq![c]);
    assert(seq![c].drop_first() =~= Seq::<char>::empty());
    assert(seq![c][0] == c);
    reveal_with_fuel(encode_utf8, 2);
    assert(encode_utf8(seq![c]) =~= encode_scalar(c as u32));
}

/// A text has at least as many bytes as characters.
pub proof fn lemma_byte_len_at_least_len(s: Seq<char>)
    ensures
        byte_len(s) >= s.len(),
    decreases s.len(),
{
    if s.len() > 0 {
        lemma_byte_len_at_least_len(s.drop_first());
    }
}

/// `char::is_control`: the character has the general category Cc, which is
/// U+0000 to U+001F and U+007F to U+009F.
pub open spec fn is_control_char(c: char) -> bool {
    (c as u32) <= 0x1f || (0x7f <= (c as u32) && (c as u32) <= 0x9f)
}

/// Whether `c` is a control character.
pub fn is_control(c: char) -> (r: bool)
    ensures
        r == is_control_char(c),
{
    let v = c as u32;
    v <= 0x1f || (0x7f <= v && v <= 0x9f)
}

/// `char::is_whitespace`: the character has the Unicode White_Space property.
pub open spec fn is_whitespace_char(c: char) -> bool {
    let v = c as u32;
    (0x9 <= v && v <= 0xd) || v == 0x20 || v == 0x85 || v == 0xa0 || v == 0x1680 || (0x2000 <= v
        && v <= 0x200a) || v == 0x2028 || v == 0x2029 || v == 0x202f || v == 0x205f || v == 0x3000
}

/// Whether `c` is whitespace.
pub fn is_whitespace(c: char) -> (r: bool)
    ensures
        r == is_whitespace_char(c),
{
    let v = c as u32;
    (0x9 <= v && v <= 0xd) || v == 0x20 || v == 0x85 || v == 0xa0 || v == 0x1680 || (0x2000 <= v
        && v <= 0x200a) || v == 0x2028 || v == 0x2029 || v == 0x202f || v == 0x205f || v == 0x3000
}

/// `char::len_utf8`: the number of bytes of a character's UTF-8 encoding.
pub fn char_len(c: char) -> (n: usize)
    ensures
        n == encode_scalar(c as u32).len(),
{
    let v = c as u32;
    proof {
        char_is_scalar(c);
    }
    if v < 0x80 {
        1
    } else if v < 0x800 {
        2
    } else if v < 0x10000 {
        3
    } else {
        4
    }
}

/// A prefix of a text has no more bytes than the text.
pub proof fn lemma_byte_len_take(s: Seq<char>, k: int)
    requires
        0 <= k <= s.len(),
    ensures
        byte_len(s.take(k)) <= byte_len(s),
        byte_len(s.take(k)) + byte_len(s.skip(k)) == byte_len(s),
{
    assert(s =~= s.take(k) + s.skip(k));
    lemma_split_at_join(s.take(k), s.skip(k));
}

/// Texts one after the other.
pub open spec fn concat_texts(ps: Seq<Seq<char>>) -> Seq<char>
    decreases ps.len(),
{
    if ps.len() == 0 {
        Seq::empty()
    } else {
        concat_texts(ps.drop_last()) + ps.last()
    }
}

/// The texts of pieces.
pub open spec fn piece_texts(ps: Seq<(usize, Seq<char>)>) -> Seq<Seq<char>> {
    ps.map_values(|p: (usize, Seq<char>)| p.1)
}

/// Pieces that cut `text` into non-empty consecutive parts, each with the byte
/// offset where it starts.
pub open spec fn pieces_cover(ps: Seq<(usize, Seq<char>)>, text: Seq<char>) -> bool {
    &&& concat_texts(piece_texts(ps)) == text
    &&& forall|i: int| 0 <= i < ps.len() ==> (#[trigger] ps[i]).1.len() > 0
    &&& forall|i: int| 0 <= i < ps.len() ==> (#[trigger] ps[i]).0 == byte_len(concat_texts(piece_texts(ps).take(i)))
}

/// The extended grapheme clusters of a text, each with its byte offset.
pub uninterp spec fn grapheme_pieces(text: Seq<char>) -> Seq<(usize, Seq<char>)>;

/// A regional indicator symbol, half of a flag.
pub open spec fn is_regional_indicator(c: char) -> bool {
    0x1f1e6 <= (c as u32) && (c as u32) <= 0x1f1ff
}

/// A combining diacritical mark (U+0300 to U+036F), which extends the cluster
/// before it.
pub open spec fn is_combining_mark(c: char) -> bool {
    0x300 <= (c as u32) && (c as u32) <= 0x36f
}

/// A printable ASCII character.
pub open spec fn is_printable_ascii(c: char) -> bool {
    0x20 <= (c as u32) && (c as u32) <= 0x7e
}

/// A grapheme cluster of `t` that starts at byte `s` may end at byte `e`: at the end
/// of the text, or where it splits no carriage return from its line feed, puts no
/// combining mark apart from the printable ASCII character it marks, and leaves no
/// lone regional indicator before another one (the two make one flag).
pub open spec fn cluster_end_at(t: Seq<char>, s: int, e: int) -> bool {
    e < byte_len(t) ==> {
        let a = byte_prefix(t, e).last();
        let b = byte_suffix(t, e)[0];
        &&& !(a == '\r' && b == '\n')
        &&& !(is_printable_ascii(a) && is_combining_mark(b))
        &&& (e == s + 4 && is_regional_indicator(byte_suffix(t, s)[0])) ==> !is_regional_indicator(b)
    }
}

/// Every cluster of `ps` ends where a cluster of `t` may end, and none holds two
/// printable ASCII characters side by side (between those a cluster always ends).
pub open spec fn clusters_split(t: Seq<char>, ps: Seq<(usize, Seq<char>)>) -> bool {
    forall|k: int|
        0 <= k < ps.len() ==> {
            &&& cluster_end_at(t, (#[trigger] ps[k]).0 as int, ps[k].0 + byte_len(ps[k].1))
            &&& forall|j: int|
                0 < j < ps[k].1.len() ==> !(is_printable_ascii(ps[k].1[j - 1]) && is_printable_ascii(
                    #[trigger] ps[k].1[j],
                ))
        }
}

/// `UnicodeSegmentation::grapheme_indices` with extended clusters: the text's
/// grapheme clusters in order with their byte offsets. The crate's iterator walks the
/// text from its start to its end, each item the slice from one boundary to the next,
/// so the clusters are non-empty and make up the text. Its boundaries follow the
/// extended cluster rules of UAX #29, of which `clusters_split` states three: no
/// break between CR and LF, none before an extending mark, and regional indicators
/// paired into flags; the rest is left to the name.
#[verifier::external_body]
pub(crate) fn grapheme_indices(text: &str) -> (r: Vec<(usize, String)>)
    ensures
        r@.map_values(|p: (usize, String)| (p.0, p.1@)) == grapheme_pieces(text@),
        pieces_cover(r@.map_values(|p: (usize, String)| (p.0, p.1@)), text@),
        clusters_split(text@, r@.map_values(|p: (usize, String)| (p.0, p.1@))),
{
    text.grapheme_indices(true).map(|(i, g)| (i, g.to_string())).collect()
}

/// The words of a text, each with its byte offset.
pub uninterp spec fn word_pieces(text: Seq<char>) -> Seq<(usize, Seq<char>)>;

/// A letter or digit that UAX #29 always keeps inside one word with a neighbour of
/// the same kind: an ASCII letter or digit, or a Latin-1 letter.
pub open spec fn is_basic_word_char(c: char) -> bool {
    let v = c as u32;
    (0x30 <= v && v <= 0x39) || (0x41 <= v && v <= 0x5a) || (0x61 <= v && v <= 0x7a) || (0xc0 <= v
        && v <= 0xff && v != 0xd7 && v != 0xf7)
}

/// Byte `i` of `t` may be the edge of a word: it is an end of the text, or it does
/// not stand between two letters or digits.
pub open spec fn word_edge_at(t: Seq<char>, i: int) -> bool {
    0 < i < byte_len(t) ==> !(is_basic_word_char(byte_prefix(t, i).last()) && is_basic_word_char(
        byte_suffix(t, i)[0],
    ))
}

/// A space and a letter or digit side by side, which a word boundary always parts.
pub open spec fn space_beside_word_char(a: char, b: char) -> bool {
    (a == ' ' && is_basic_word_char(b)) || (is_basic_word_char(a) && b == ' ')
}

/// The words `ws` of `t` come in order without overlap, cut no run of letters and
/// digits, join no such character with a space beside it, and every letter or digit
/// lies in a word.
pub open spec fn words_unsplit(t: Seq<char>, ws: Seq<(usize, Seq<char>)>) -> bool {
    &&& forall|k: int|
        0 <= k < ws.len() ==> {
            &&& (#[trigger] ws[k]).1.len() > 0
            &&& word_edge_at(t, ws[k].0 as int)
            &&& word_edge_at(t, ws[k].0 + byte_len(ws[k].1))
            &&& forall|j: int| 0 < j < ws[k].1.len() ==> !space_beside_word_char(ws[k].1[j - 1], #[trigger] ws[k].1[j])
        }
    &&& forall|k1: int, k2: int|
        0 <= k1 < k2 < ws.len() ==> (#[trigger] ws[k1]).0 + byte_len(ws[k1].1) <= (#[trigger] ws[k2]).0
    &&& forall|j: int|
        0 <= j < t.len() && is_basic_word_char(#[trigger] t[j]) ==> exists|k: int|
            0 <= k < ws.len() && (#[trigger] ws[k]).0 <= byte_len(t.take(j)) < ws[k].0 + byte_len(
                ws[k].1,
            )
}

/// Pieces that each stand in `text` at their byte offset.
pub open spec fn pieces_within(ps: Seq<(usize, Seq<char>)>, text: Seq<char>) -> bool {
    forall|i: int|
        0 <= i < ps.len() ==> {
            &&& (#[trigger] ps[i]).0 + byte_len(ps[i].1) <= byte_len(text)
            &&& encode_utf8(text).subrange(ps[i].0 as int, ps[i].0 + byte_len(ps[i].1)) == encode_utf8(ps[i].1)
        }
}

/// `UnicodeSegmentation::unicode_word_indices`: the text's words, split on UAX#29
/// word boundaries and kept where they hold a letter or a number, in order with their
/// byte offsets. Each item the crate hands out is the slice of the text at its
/// offset. UAX #29 puts no boundary between two letters or digits (rules WB5 and WB8
/// to WB10), and a segment with one is kept, which `words_unsplit` states for ASCII
/// and Latin-1 letters and digits; the rest of which slices count as words is left to
/// the name.
#[verifier::external_body]
pub(crate) fn word_indices(text: &str) -> (r: Vec<(usize, String)>)
    ensures
        r@.map_values(|p: (usize, String)| (p.0, p.1@)) == word_pieces(text@),
        pieces_within(r@.map_values(|p: (usize, String)| (p.0, p.1@)), text@),
        words_unsplit(text@, r@.map_values(|p: (usize, String)| (p.0, p.1@))),
{
    text.unicode_word_indices().map(|(i, w)| (i, w.to_string())).collect()
}

/// `String::split_off`: `s` keeps the bytes before `at` and the rest is returned. It
/// panics where `at` is not a character boundary, which `requires` rules out.
#[verifier::external_body]
pub(crate) fn string_split_off(s: &mut String, at: usize) -> (tail: String)
    requires
        at_char_boundary(old(s)@, at as int),
    ensures
        encode_utf8(final(s)@) == encode_utf8(old(s)@).subrange(0, at as int),
        encode_utf8(tail@) == encode_utf8(old(s)@).subrange(
            at as int,
            encode_utf8(old(s)@).len() as int,
        ),
{
    s.split_off(at)
}

/// `String::push_str`: appends `t` to `s`.
#[verifier::external_body]
pub(crate) fn string_push_str(s: &mut String, t: &str)
    ensures
        final(s)@ == old(s)@ + t@,
{
    s.push_str(t)
}

/// `String::push`: appends one character to `s`.
#[verifier::external_body]
pub(crate) fn string_push(s: &mut String, c: char)
    ensures
        final(s)@ == old(s)@.push(c),
{
    s.push(c)
}

/// `String::pop`: removes and returns the last character, if there is one.
#[verifier::external_body]
pub(crate) fn string_pop(s: &mut String) -> (r: Option<char>)
    ensures
        old(s)@.len() == 0 ==> r is None && final(s)@ == old(s)@,
        old(s)@.len() > 0 ==> r == Some(old(s)@.last()) && final(s)@ == old(s)@.drop_last(),
{
    s.pop()
}

/// Splits `s` at byte `at`: the text before it stays and the rest is returned.
pub fn split_text_at(s: &mut String, at: usize) -> (tail: String)
    requires
        at_char_boundary(old(s)@, at as int),
    ensures
        final(s)@ == byte_prefix(old(s)@, at as int),
        tail@ == byte_suffix(old(s)@, at as int),
        old(s)@ == final(s)@ + tail@,
        byte_len(final(s)@) == at,
        byte_len(old(s)@) <= usize::MAX,
{
    let ghost before = s@;
    let _len = text_len(s);
    let tail = string_split_off(s, at);
    proof {
        lemma_split_at_boundary(before, at as int);
        encode_utf8_decode_utf8(s@);
        encode_utf8_decode_utf8(tail@);
    }
    tail
}

/// Splits `t` at byte `at` into the text before it and the text from it on.
pub fn split_at_byte(t: &str, at: usize) -> (r: (&str, &str))
    requires
        at_char_boundary(t@, at as int),
    ensures
        r.0@ == byte_prefix(t@, at as int),
        r.1@ == byte_suffix(t@, at as int),
{
    let r = t.split_at(at);
    proof {
        encode_utf8_decode_utf8(r.0@);
        encode_utf8_decode_utf8(r.1@);
    }
    r
}

/// The byte length of a `String`.
pub fn text_len(s: &String) -> (n: usize)
    ensures
        n == byte_len(s@),
{
    s.as_str().as_bytes().len()
}

} // verus!
