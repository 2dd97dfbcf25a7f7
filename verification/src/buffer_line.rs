//! A line (or paragraph) of text with its line ending, attribute spans, alignment
//! and shaping strategy.

use vstd::prelude::*;

use crate::attrs::{attrs_eq, attrs_list_eq, str_eq, assign_range, lemma_split_recombines, points_below, points_shifted_from, entries_cover, in_entry, covered_before, AttrsList, AttrsOwned, AttrsView};
use crate::layout::{Align, Shaping};
use crate::rope_text::LineEnding;
use crate::strings::{
    byte_len, byte_prefix, byte_suffix, at_char_boundary, split_text_at, string_push_str, text_len,
    lemma_split_at_join, lemma_split_at_boundary,
};

verus! {

/// A line as values.
pub struct LineView {
    pub text: Seq<char>,
    pub ending: LineEnding,
    pub defaults: AttrsView,
    pub spans: Map<usize, AttrsView>,
    pub align: Option<Align>,
    pub shaping: Shaping,
    pub metadata: Option<usize>,
}

/// A line (or paragraph) of text
#[derive(Clone, Debug)]
pub struct BufferLine {
    text: String,
    ending: LineEnding,
    attrs_list: AttrsList,
    align: Option<Align>,
    shaping: Shaping,
    metadata: Option<usize>,
}

impl View for BufferLine {
    type V = LineView;

    closed spec fn view(&self) -> LineView {
        LineView {
            text: self.text@,
            ending: self.ending,
            defaults: self.attrs_list.defaults_view(),
            spans: self.attrs_list.spans_view(),
            align: self.align,
            shaping: self.shaping,
            metadata: self.metadata,
        }
    }
}

/// The spans of a line after another line is appended to it: where the appended
/// line's defaults differ, its whole text gets them as a span, and its own spans
/// follow, moved to start at `len`.
pub open spec fn appended_spans(
    p: Map<usize, AttrsView>,
    defaults: AttrsView,
    len: nat,
    other: LineView,
) -> Map<usize, AttrsView> {
    let olen = byte_len(other.text);
    let base = if other.defaults != defaults && olen > 0 {
        assign_range(p, len as usize, (len + olen) as usize, other.defaults)
    } else {
        p
    };
    Map::new(
        |k: usize|
            base.contains_key(k) || (k >= len && other.spans.contains_key((k - len) as usize)),
        |k: usize|
            if k >= len && other.spans.contains_key((k - len) as usize) {
                other.spans[(k - len) as usize]
            } else {
                base[k]
            },
    )
}

/// A new line's view: no alignment or metadata yet.
pub open spec fn new_line_view(
    text: Seq<char>,
    ending: LineEnding,
    defaults: AttrsView,
    spans: Map<usize, AttrsView>,
    shaping: Shaping,
) -> LineView {
    LineView { text, ending, defaults, spans, align: None, shaping, metadata: None }
}

/// What stays of a line split at byte `index`: the text and spans before it, with
/// no ending.
pub open spec fn split_kept(v: LineView, index: int) -> LineView {
    LineView {
        text: byte_prefix(v.text, index),
        ending: LineEnding::NoEnding,
        spans: points_below(v.spans, index as usize),
        metadata: None,
        ..v
    }
}

/// The line split off at byte `index`: the text and spans from it on, the ending,
/// the alignment and the shaping.
pub open spec fn split_rest(v: LineView, index: int) -> LineView {
    LineView {
        text: byte_suffix(v.text, index),
        ending: v.ending,
        defaults: v.defaults,
        spans: points_shifted_from(v.spans, index as usize),
        align: v.align,
        shaping: v.shaping,
        metadata: None,
    }
}

/// Line `a` with line `b` appended.
pub open spec fn appended(a: LineView, b: LineView) -> LineView {
    LineView {
        text: a.text + b.text,
        ending: b.ending,
        spans: appended_spans(a.spans, a.defaults, byte_len(a.text), b),
        metadata: None,
        ..a
    }
}

/// `base` with the first `i` entries written over it, moved up by `len`.
pub open spec fn overlay_entries(
    base: Map<usize, AttrsView>,
    ev: Seq<(usize, usize, AttrsView)>,
    i: int,
    len: nat,
) -> Map<usize, AttrsView> {
    Map::new(
        |k: usize| base.contains_key(k) || (k >= len && covered_before(ev, i, (k - len) as usize)),
        |k: usize|
            if k >= len && covered_before(ev, i, (k - len) as usize) {
                ev[choose|j: int| 0 <= j < i && #[trigger] in_entry(ev[j], (k - len) as usize)].2
            } else {
                base[k]
            },
    )
}

impl BufferLine {
    /// Create a new line with the given text and attributes list
    pub fn new(text: String, ending: LineEnding, attrs_list: AttrsList, shaping: Shaping) -> (l: Self)
        ensures
            l@ == new_line_view(text@, ending, attrs_list.defaults_view(), attrs_list.spans_view(), shaping),
            l@ == (LineView {
                text: text@,
                ending,
                defaults: attrs_list.defaults_view(),
                spans: attrs_list.spans_view(),
                align: None,
                shaping,
                metadata: None,
            }),
    {
        Self { text, ending, attrs_list, align: None, shaping, metadata: None }
    }

    /// Resets the current line with new internal values.
    pub fn reset_new(&mut self, text: String, ending: LineEnding, attrs_list: AttrsList, shaping: Shaping)
        ensures
            final(self)@ == (LineView {
                text: text@,
                ending,
                defaults: attrs_list.defaults_view(),
                spans: attrs_list.spans_view(),
                align: None,
                shaping,
                metadata: None,
            }),
    {
        self.text = text;
        self.ending = ending;
        self.attrs_list = attrs_list;
        self.align = None;
        self.shaping = shaping;
        self.metadata = None;
    }

    /// Get current text
    pub fn text(&self) -> (t: &str)
        ensures
            t@ == self@.text,
    {
        self.text.as_str()
    }

    /// Consume this line, returning only its text contents as a String.
    pub fn into_text(self) -> (t: String)
        ensures
            t@ == self@.text,
    {
        self.text
    }

    /// Set text and attributes list. Returns true, and resets the line's metadata,
    /// if any of them differs from what the line has.
    pub fn set_text(&mut self, text: &str, ending: LineEnding, attrs_list: AttrsList) -> (changed: bool)
        ensures
            changed == (text@ != old(self)@.text || ending != old(self)@.ending
                || attrs_list.defaults_view() != old(self)@.defaults || attrs_list.spans_view()
                != old(self)@.spans),
            final(self)@ == if changed {
                LineView {
                    text: text@,
                    ending,
                    defaults: attrs_list.defaults_view(),
                    spans: attrs_list.spans_view(),
                    metadata: None,
                    ..old(self)@
                }
            } else {
                old(self)@
            },
    {
        if !str_eq(text, self.text.as_str()) || ending != self.ending || !attrs_list_eq(
            &attrs_list,
            &self.attrs_list,
        ) {
            self.text = text.to_owned();
            self.ending = ending;
            self.attrs_list = attrs_list;
            self.metadata = None;
            true
        } else {
            false
        }
    }

    /// Set attributes list. Returns true if it differed from the line's.
    pub fn set_attrs_list(&mut self, attrs_list: AttrsList) -> (changed: bool)
        ensures
            changed == (attrs_list.defaults_view() != old(self)@.defaults || attrs_list.spans_view()
                != old(self)@.spans),
            final(self)@ == (LineView {
                defaults: attrs_list.defaults_view(),
                spans: attrs_list.spans_view(),
                ..old(self)@
            }),
    {
        if !attrs_list_eq(&attrs_list, &self.attrs_list) {
            self.attrs_list = attrs_list;
            true
        } else {
            false
        }
    }

    /// Get line ending
    pub fn ending(&self) -> (e: LineEnding)
        ensures
            e == self@.ending,
    {
        self.ending
    }

    /// Set line ending. Returns true if it differed from the current one.
    pub fn set_ending(&mut self, ending: LineEnding) -> (changed: bool)
        ensures
            changed == (ending != old(self)@.ending),
            final(self)@ == (LineView { ending, ..old(self)@ }),
    {
        if ending != self.ending {
            self.ending = ending;
            true
        } else {
            false
        }
    }

    /// Get attributes list
    pub fn attrs_list(&self) -> (a: &AttrsList)
        ensures
            a.defaults_view() == self@.defaults,
            a.spans_view() == self@.spans,
    {
        &self.attrs_list
    }

    /// Get the text alignment
    pub fn align(&self) -> (a: Option<Align>)
        ensures
            a == self@.align,
    {
        self.align
    }

    /// Set the text alignment. Returns true if it differed from the current one.
    pub fn set_align(&mut self, align: Option<Align>) -> (changed: bool)
        ensures
            changed == (align != old(self)@.align),
            final(self)@ == (LineView { align, ..old(self)@ }),
    {
        let differs = match (align, self.align) {
            (Some(a), Some(b)) => a != b,
            (None, None) => false,
            _ => true,
        };
        if differs {
            self.align = align;
            true
        } else {
            false
        }
    }

    /// Get the shaping strategy
    pub fn shaping(&self) -> (s: Shaping)
        ensures
            s == self@.shaping,
    {
        self.shaping
    }

    /// Get line metadata. This will be None if [`BufferLine::set_metadata`] has not been
    /// called after the last reset
    pub fn metadata(&self) -> (m: Option<usize>)
        ensures
            m == self@.metadata,
    {
        self.metadata
    }

    /// Set line metadata. This is stored until the next line reset
    pub fn set_metadata(&mut self, metadata: usize)
        ensures
            final(self)@ == (LineView { metadata: Some(metadata), ..old(self)@ }),
    {
        self.metadata = Some(metadata);
    }

    /// Reset the line's metadata
    pub fn reset(&mut self)
        ensures
            final(self)@ == (LineView { metadata: None, ..old(self)@ }),
    {
        self.metadata = None;
    }

    /// Split off new line at index: this line keeps the text and spans before byte
    /// `index` and loses its ending; the new line takes the rest, the ending, the
    /// alignment and the shaping.
    pub fn split_off(&mut self, index: usize) -> (new: Self)
        requires
            at_char_boundary(old(self)@.text, index as int),
        ensures
            old(self)@.text == final(self)@.text + new@.text,
            final(self)@.text == byte_prefix(old(self)@.text, index as int),
            new@.text == byte_suffix(old(self)@.text, index as int),
            byte_len(final(self)@.text) == index,
            byte_len(new@.text) == byte_len(old(self)@.text) - index,
            byte_len(old(self)@.text) <= usize::MAX,
            forall|k: usize| #[trigger] new@.spans.contains_key(k) ==> k + index < usize::MAX,
            final(self)@ == split_kept(old(self)@, index as int),
            new@ == split_rest(old(self)@, index as int),
            final(self)@ == (LineView {
                text: final(self)@.text,
                ending: LineEnding::NoEnding,
                spans: points_below(old(self)@.spans, index),
                metadata: None,
                ..old(self)@
            }),
            new@ == (LineView {
                text: new@.text,
                ending: old(self)@.ending,
                defaults: old(self)@.defaults,
                spans: points_shifted_from(old(self)@.spans, index),
                align: old(self)@.align,
                shaping: old(self)@.shaping,
                metadata: None,
            }),
    {
        proof {
            lemma_split_at_boundary(self.text@, index as int);
        }
        let text = split_text_at(&mut self.text, index);
        let attrs_list = self.attrs_list.split_off(index);
        self.metadata = None;
        let mut new = Self::new(text, self.ending, attrs_list, self.shaping);
        self.ending = LineEnding::NoEnding;
        new.align = self.align;
        new
    }

    /// Append line at end of this line: its text follows this line's, its ending
    /// replaces this line's, and its attributes are kept as spans.
    pub fn append(&mut self, other: &Self)
        requires
            byte_len(old(self)@.text) + byte_len(other@.text) <= usize::MAX,
            forall|k: usize|
                #[trigger] other@.spans.contains_key(k) ==> k + byte_len(old(self)@.text)
                    < usize::MAX,
        ensures
            final(self)@ == appended(old(self)@, other@),
            final(self)@ == (LineView {
                text: old(self)@.text + other@.text,
                ending: other@.ending,
                spans: appended_spans(
                    old(self)@.spans,
                    old(self)@.defaults,
                    byte_len(old(self)@.text),
                    other@,
                ),
                metadata: None,
                ..old(self)@
            }),
    {
        let len = text_len(&self.text);
        let olen = text_len(&other.text);
        let ghost p0 = self.attrs_list.spans_view();
        let ghost d = self.attrs_list.defaults_view();
        proof {
            lemma_split_at_join(self.text@, other.text@);
        }
        string_push_str(&mut self.text, other.text.as_str());
        self.ending = other.ending;
        let od = other.attrs_list.defaults();
        let sd = self.attrs_list.defaults();
        if !attrs_eq(&od, &sd) {
            self.attrs_list.add_span(len, len + olen, od);
        }
        let ghost base = self.attrs_list.spans_view();
        assert(base == if other@.defaults != d && olen > 0 {
            assign_range(p0, len, (len + olen) as usize, other@.defaults)
        } else {
            p0
        });
        let entries = other.attrs_list.spans();
        let ghost ev = entries@.map_values(|e: (usize, usize, AttrsOwned)| (e.0, e.1, e.2@));
        let ghost op = other@.spans;
        let n = entries.len();
        let mut i: usize = 0;
        while i < n
            invariant
                n == entries@.len(),
                ev == entries@.map_values(|e: (usize, usize, AttrsOwned)| (e.0, e.1, e.2@)),
                entries_cover(ev, op),
                i <= n,
                forall|k: usize| #[trigger] op.contains_key(k) ==> k + len < usize::MAX,
                self.attrs_list.defaults_view() == d,
                self.attrs_list.spans_view() == overlay_entries(base, ev, i as int, len as nat),
                self.text@ == old(self)@.text + other@.text,
                self.ending == other@.ending,
                self.align == old(self)@.align,
                self.shaping == old(self)@.shaping,
            decreases n - i,
        {
            let e = &entries[i];
            let ghost ei = ev[i as int];
            assert(ei.0 == e.0 && ei.1 == e.1 && ei.2 == e.2@);
            assert(in_entry(ei, e.0));
            assert(op.contains_key(e.0));
            assert(in_entry(ei, (e.1 - 1) as usize));
            assert(op.contains_key((e.1 - 1) as usize));
            let ghost before = self.attrs_list.spans_view();
            self.attrs_list.add_span(e.0 + len, e.1 + len, e.2.as_attrs());
            proof {
                lemma_overlay_step(base, ev, op, i as int, len as nat, before, self.attrs_list.spans_view());
            }
            i = i + 1;
        }
        self.metadata = None;
        proof {
            lemma_overlay_all(base, ev, op, len as nat);
            assert(self.attrs_list.spans_view() =~= appended_spans(p0, d, len as nat, other@));
        }
    }
}

/// Splitting a line and appending the split-off part back gives the line again, with
/// its metadata reset.
pub proof fn lemma_split_then_append(v: LineView, index: usize)
    requires
        at_char_boundary(v.text, index as int),
    ensures
        appended(split_kept(v, index as int), split_rest(v, index as int)) == (LineView {
            metadata: None,
            ..v
        }),
{
    lemma_split_at_boundary(v.text, index as int);
    let kept = split_kept(v, index as int);
    let rest = split_rest(v, index as int);
    assert(rest.defaults == kept.defaults);
    let merged = appended_spans(kept.spans, kept.defaults, byte_len(kept.text), rest);
    assert(byte_len(kept.text) == index);
    assert forall|k: usize| #[trigger] merged.contains_key(k) == v.spans.contains_key(k) by {
        lemma_split_recombines(v.spans, index, k);
    }
    assert forall|k: usize| #[trigger] merged.contains_key(k) implies merged[k] == v.spans[k] by {
        lemma_split_recombines(v.spans, index, k);
    }
    assert(merged =~= v.spans);
}

/// One more entry written over the overlay.
proof fn lemma_overlay_step(
    base: Map<usize, AttrsView>,
    ev: Seq<(usize, usize, AttrsView)>,
    op: Map<usize, AttrsView>,
    i: int,
    len: nat,
    before: Map<usize, AttrsView>,
    after: Map<usize, AttrsView>,
)
    requires
        entries_cover(ev, op),
        0 <= i < ev.len(),
        ev[i].1 + len <= usize::MAX,
        before == overlay_entries(base, ev, i, len),
        after == assign_range(before, (ev[i].0 + len) as usize, (ev[i].1 + len) as usize, ev[i].2),
    ensures
        after == overlay_entries(base, ev, i + 1, len),
{
    let target = overlay_entries(base, ev, i + 1, len);
    assert forall|k: usize| #[trigger] covered_before(ev, i + 1, k) == (in_entry(ev[i], k) || covered_before(ev, i, k)) by {
        if covered_before(ev, i + 1, k) {
            let j = choose|j: int| 0 <= j < i + 1 && #[trigger] in_entry(ev[j], k);
            if j != i {
                assert(covered_before(ev, i, k));
            }
        }
        if covered_before(ev, i, k) {
            let j = choose|j: int| 0 <= j < i && #[trigger] in_entry(ev[j], k);
            assert(covered_before(ev, i + 1, k));
        }
    }
    assert forall|k: usize| #[trigger] after.contains_key(k) == target.contains_key(k) by {
        if k >= len {
            let kk = (k - len) as usize;
            assert(covered_before(ev, i + 1, kk) == (in_entry(ev[i], kk) || covered_before(ev, i, kk)));
        }
    }
    assert forall|k: usize| #[trigger] after.contains_key(k) implies after[k] == target[k] by {
        if k >= len {
            let kk = (k - len) as usize;
            if covered_before(ev, i + 1, kk) {
                let j = choose|j: int| 0 <= j < i + 1 && #[trigger] in_entry(ev[j], kk);
                // entries are disjoint, so the chosen entry is the one holding `kk`
                if in_entry(ev[i], kk) {
                    if j != i {
                        assert(ev[j].1 <= ev[i].0);
                    }
                    assert(target[k] == ev[i].2);
                } else {
                    assert(covered_before(ev, i, kk));
                    let j0 = choose|j: int| 0 <= j < i && #[trigger] in_entry(ev[j], kk);
                    if j != j0 {
                        if j < j0 {
                            assert(ev[j].1 <= ev[j0].0);
                        } else {
                            assert(ev[j0].1 <= ev[j].0);
                        }
                    }
                }
            }
        }
    }
    assert(after =~= target);
}

/// With every entry written, the overlay is the appended spans.
proof fn lemma_overlay_all(
    base: Map<usize, AttrsView>,
    ev: Seq<(usize, usize, AttrsView)>,
    op: Map<usize, AttrsView>,
    len: nat,
)
    requires
        entries_cover(ev, op),
    ensures
        overlay_entries(base, ev, ev.len() as int, len) == Map::new(
            |k: usize| base.contains_key(k) || (k >= len && op.contains_key((k - len) as usize)),
            |k: usize|
                if k >= len && op.contains_key((k - len) as usize) {
                    op[(k - len) as usize]
                } else {
                    base[k]
                },
        ),
{
    let lhs = overlay_entries(base, ev, ev.len() as int, len);
    let rhs = Map::new(
        |k: usize| base.contains_key(k) || (k >= len && op.contains_key((k - len) as usize)),
        |k: usize|
            if k >= len && op.contains_key((k - len) as usize) {
                op[(k - len) as usize]
            } else {
                base[k]
            },
    );
    assert forall|k: usize| #[trigger] lhs.contains_key(k) == rhs.contains_key(k) by {
        if k >= len {
            let kk = (k - len) as usize;
            if op.contains_key(kk) {
                let j = choose|j: int| 0 <= j < ev.len() && #[trigger] in_entry(ev[j], kk);
                assert(covered_before(ev, ev.len() as int, kk));
            }
        }
    }
    assert forall|k: usize| #[trigger] lhs.contains_key(k) implies lhs[k] == rhs[k] by {
        if k >= len {
            let kk = (k - len) as usize;
            if covered_before(ev, ev.len() as int, kk) {
                let j = choose|j: int| 0 <= j < ev.len() && #[trigger] in_entry(ev[j], kk);
            }
        }
    }
    assert(lhs =~= rhs);
}

} // verus!
