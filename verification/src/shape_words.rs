//! Cutting a span of text into the words that are shaped one by one: at each line
//! break opportunity the text before it is split into the word proper and its
//! trailing whitespace, and each whitespace character becomes a blank word of its
//! own, so that lines can wrap between words.

use vstd::prelude::*;
use vstd::utf8::*;

use crate::strings::{
    at_char_boundary, byte_len, byte_prefix, byte_suffix, char_len, is_whitespace, is_whitespace_char,
    lemma_boundary_in_first, lemma_byte_len_push, lemma_byte_len_take, lemma_split_at_boundary,
    lemma_split_at_join, split_at_byte,
};

verus! {

broadcast use vstd::utf8::group_utf8_lib;

/// How many whitespace characters end `seg`.
pub open spec fn trailing_blank(seg: Seq<char>) -> nat
    decreases seg.len(),
{
    if seg.len() > 0 && is_whitespace_char(seg.last()) {
        1 + trailing_blank(seg.drop_last())
    } else {
        0
    }
}

/// Each character of `ws` as a blank word, byte ranges counted from `at`.
pub open spec fn blank_words(ws: Seq<char>, at: int) -> Seq<(int, int, bool)>
    decreases ws.len(),
{
    if ws.len() == 0 {
        Seq::empty()
    } else {
        blank_words(ws.drop_last(), at) + seq![(at + byte_len(ws.drop_last()), at + byte_len(ws), true)]
    }
}

/// The words of the text between two break opportunities, which starts at byte `at`:
/// the text up to its trailing whitespace, if any, then each trailing whitespace
/// character on its own, as blank words.
pub open spec fn segment_words(seg: Seq<char>, at: int) -> Seq<(int, int, bool)> {
    let k = seg.len() - trailing_blank(seg);
    let w = byte_len(seg.take(k));
    (if k > 0 {
        seq![(at, at + w, false)]
    } else {
        Seq::empty()
    }) + blank_words(seg.skip(k), at + w)
}

/// The text of `s` from byte `a` to byte `b`.
pub open spec fn byte_slice(s: Seq<char>, a: int, b: int) -> Seq<char> {
    byte_suffix(byte_prefix(s, b), a)
}

/// The words of `s` cut at the break opportunities `breaks` (byte offsets, each the end
/// of a piece of text), as byte ranges with whether each is blank.
pub open spec fn words_of(s: Seq<char>, breaks: Seq<usize>) -> Seq<(int, int, bool)>
    decreases breaks.len(),
{
    if breaks.len() == 0 {
        Seq::empty()
    } else {
        let start: int = if breaks.len() > 1 {
            breaks[breaks.len() - 2] as int
        } else {
            0
        };
        words_of(s, breaks.drop_last()) + segment_words(byte_slice(s, start, breaks.last() as int), start)
    }
}

/// Word ranges as integers.
pub open spec fn word_triples(v: Seq<(usize, usize, bool)>) -> Seq<(int, int, bool)> {
    v.map_values(|w: (usize, usize, bool)| (w.0 as int, w.1 as int, w.2))
}

/// The break opportunities that cutting accepts: character boundaries of the text, in
/// order.
pub open spec fn breaks_ok(s: Seq<char>, breaks: Seq<usize>) -> bool {
    &&& forall|i: int| 0 <= i < breaks.len() ==> at_char_boundary(s, #[trigger] breaks[i] as int)
    &&& forall|i: int, j: int| 0 <= i < j < breaks.len() ==> #[trigger] breaks[i] <= #[trigger] breaks[j]
}

/// Add the words of the piece `seg`, which starts at byte `at`.
fn push_segment_words(words: &mut Vec<(usize, usize, bool)>, seg: &str, at: usize)
    requires
        at + byte_len(seg@) <= usize::MAX,
    ensures
        word_triples(final(words)@) == word_triples(old(words)@) + segment_words(seg@, at as int),
{
    let ghost g = seg@;
    let ghost start = word_triples(words@);
        // where the trailing whitespace of the piece starts
        let mut off: usize = 0;
        let mut last_end: usize = 0;
        proof {
            assert(g.take(0) =~= Seq::<char>::empty());
        }
        for c in it: seg.chars()
            invariant
                it.seq() == g,
                g == seg@,
                off == byte_len(g.take(it.index() as int)),
                last_end == byte_len(g.take(it.index() - trailing_blank(g.take(it.index() as int)))),
                trailing_blank(g.take(it.index() as int)) <= it.index(),
                at + byte_len(g) <= usize::MAX,
        {
            let ghost k = it.index() as int;
            proof {
                let t = g.take(k + 1);
                assert(t =~= g.take(k).push(c));
                assert(t.drop_last() =~= g.take(k));
                lemma_byte_len_push(g.take(k), c);
                lemma_byte_len_take(g, k + 1);
                if !is_whitespace_char(c) {
                    assert(trailing_blank(t) == 0);
                    assert(t.take(k + 1) =~= t);
                } else {
                    assert(trailing_blank(t) == 1 + trailing_blank(g.take(k)));
                    assert(g.take(k + 1 - trailing_blank(t)) =~= g.take(k - trailing_blank(g.take(k))));
                }
            }
            off = off + char_len(c);
            if !is_whitespace(c) {
                last_end = off;
            }
        }
        let ghost kw = g.len() - trailing_blank(g);
        proof {
            assert(g.take(g.len() as int) =~= g);
            lemma_byte_len_take(g, kw);
            lemma_split_at_join(g.take(kw), g.skip(kw));
            assert(g.take(kw) + g.skip(kw) =~= g);
        }
        let ghost before = word_triples(words@);
        if last_end > 0 {
            words.push((at, at + last_end, false));
        }
        proof {
            if kw == 0 {
                assert(g.take(0) =~= Seq::<char>::empty());
            } else {
                assert(byte_len(g.take(kw)) > 0) by {
                    crate::strings::lemma_byte_len_at_least_len(g.take(kw));
                }
            }
        }
        let ghost mid = word_triples(words@);
        proof {
            assert(last_end == byte_len(g.take(kw)));
            assert(mid =~= start + (if kw > 0 {
                seq![(at as int, at + byte_len(g.take(kw)), false)]
            } else {
                Seq::<(int, int, bool)>::empty()
            }));
        }
        let (_, ws) = split_at_byte(seg, last_end);
        let ghost w = ws@;
        proof {
            assert(w == g.skip(kw));
        }
        let mut pos: usize = at + last_end;
        proof {
            assert(w.take(0) =~= Seq::<char>::empty());
            assert(blank_words(w.take(0), at + last_end) =~= Seq::<(int, int, bool)>::empty());
            assert(word_triples(words@) =~= mid + blank_words(w.take(0), at + last_end));
            lemma_byte_len_take(g, kw);
        }
        for c in it: ws.chars()
            invariant
                it.seq() == w,
                w == ws@,
                pos == at + last_end + byte_len(w.take(it.index() as int)),
                last_end + byte_len(w) == byte_len(g),
                at + byte_len(g) <= usize::MAX,
                word_triples(words@) == mid + blank_words(w.take(it.index() as int), at + last_end),
        {
            let ghost k = it.index() as int;
            proof {
                let t = w.take(k + 1);
                assert(t =~= w.take(k).push(c));
                assert(t.drop_last() =~= w.take(k));
                lemma_byte_len_push(w.take(k), c);
                lemma_byte_len_take(w, k + 1);
            }
            let len = char_len(c);
            let ghost prev = words@;
            words.push((pos, pos + len, true));
            proof {
                assert(word_triples(words@) =~= word_triples(prev).push((pos as int, pos + len, true)));
            }
            pos = pos + len;
        }
    proof {
        assert(w.take(w.len() as int) =~= w);
        assert(word_triples(words@) =~= start + segment_words(g, at as int));
    }
}

/// Cut `span` into words at the break opportunities `breaks` (byte offsets, each the
/// end of a piece, as the line breaking algorithm gives them): in each piece, the text
/// before its trailing whitespace is a word, and each trailing whitespace character is
/// a blank word. Ranges are byte offsets into `span`.
pub fn span_words(span: &str, breaks: &Vec<usize>) -> (words: Vec<(usize, usize, bool)>)
    requires
        breaks_ok(span@, breaks@),
    ensures
        word_triples(words@) == words_of(span@, breaks@),
{
    let ghost s = span@;
    let mut words: Vec<(usize, usize, bool)> = Vec::new();
    let mut start_word: usize = 0;
    let mut bi: usize = 0;
    proof {
        assert(breaks@.take(0) =~= Seq::<usize>::empty());
        assert(at_char_boundary(s, 0)) by {
            lemma_split_at_join(Seq::<char>::empty(), s);
            assert(Seq::<char>::empty() + s =~= s);
        }
    }
    while bi < breaks.len()
        invariant
            s == span@,
            breaks_ok(s, breaks@),
            bi <= breaks@.len(),
            start_word == if bi > 0 {
                breaks@[bi - 1] as int
            } else {
                0
            },
            at_char_boundary(s, start_word as int),
            bi < breaks@.len() ==> start_word <= breaks@[bi as int],
            word_triples(words@) == words_of(s, breaks@.take(bi as int)),
        decreases breaks@.len() - bi,
    {
        let end_lb = breaks[bi];
        proof {
            lemma_split_at_boundary(s, end_lb as int);
            lemma_split_at_boundary(s, start_word as int);
            let head = byte_prefix(s, end_lb as int);
            let tail = byte_suffix(s, end_lb as int);
            lemma_boundary_in_first(head, tail, start_word as int);
        }
        let (head, _) = split_at_byte(span, end_lb);
        let (_, seg) = split_at_byte(head, start_word);
        let ghost g = seg@;
        proof {
            lemma_split_at_boundary(head@, start_word as int);
        }
        proof {
            assert(byte_slice(s, start_word as int, end_lb as int) == g);
            assert(start_word + byte_len(g) == end_lb);
        }
        push_segment_words(&mut words, seg, start_word);
        proof {
            let bt = breaks@.take(bi + 1);
            assert(bt.drop_last() =~= breaks@.take(bi as int));
            assert(bt.last() == end_lb);
            if bi > 0 {
                assert(bt[bt.len() - 2] == breaks@[bi - 1]);
            }
            assert(word_triples(words@) =~= words_of(s, bt));
            if bi + 1 < breaks@.len() {
                assert(breaks@[bi as int] <= breaks@[bi + 1]);
            }
        }
        start_word = end_lb;
        bi = bi + 1;
    }
    proof {
        assert(breaks@.take(breaks@.len() as int) =~= breaks@);
    }
    words
}

} // verus!
