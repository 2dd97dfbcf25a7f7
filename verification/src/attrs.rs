use vstd::prelude::*;
use rangemap::RangeMap;
use crate::color::Color;

verus! {

/// Font style, as stored in a font face's metadata.
#[derive(Clone, Copy, Debug, PartialEq, Eq, Hash, Structural)]
pub enum Style {
    Normal,
    Italic,
    Oblique,
}

/// Font width class, from the narrowest to the widest.
#[derive(Clone, Copy, Debug, PartialEq, Eq, Hash, Structural)]
pub enum Stretch {
    UltraCondensed,
    ExtraCondensed,
    Condensed,
    SemiCondensed,
    Normal,
    SemiExpanded,
    Expanded,
    ExtraExpanded,
    UltraExpanded,
}

/// Font weight, on the usual 1 to 1000 scale (400 is regular).
#[derive(Clone, Copy, Debug, PartialEq, Eq, Hash, Structural)]
pub struct Weight(pub u16);

/// The OpenType `usWidthClass` number of a stretch, from 1 to 9.
pub open spec fn spec_stretch_number(s: Stretch) -> u16 {
    match s {
        Stretch::UltraCondensed => 1,
        Stretch::ExtraCondensed => 2,
        Stretch::Condensed => 3,
        Stretch::SemiCondensed => 4,
        Stretch::Normal => 5,
        Stretch::SemiExpanded => 6,
        Stretch::Expanded => 7,
        Stretch::ExtraExpanded => 8,
        Stretch::UltraExpanded => 9,
    }
}

impl Stretch {
    /// The OpenType `usWidthClass` number of this stretch.
    pub fn to_number(&self) -> (n: u16)
        ensures
            n == spec_stretch_number(*self),
            1 <= n <= 9,
    {
        match self {
            Stretch::UltraCondensed => 1,
            Stretch::ExtraCondensed => 2,
            Stretch::Condensed => 3,
            Stretch::SemiCondensed => 4,
            Stretch::Normal => 5,
            Stretch::SemiExpanded => 6,
            Stretch::Expanded => 7,
            Stretch::ExtraExpanded => 8,
            Stretch::UltraExpanded => 9,
        }
    }
}


/// A font family: a family name or one of the generic families.
#[derive(Clone, Copy, Debug, PartialEq, Eq, Hash)]
pub enum Family<'a> {
    Name(&'a str),
    Serif,
    SansSerif,
    Cursive,
    Fantasy,
    Monospace,
}

/// An owned version of [`Family`]
#[derive(Clone, Debug, Eq, Hash, PartialEq)]
pub enum FamilyOwned {
    Name(String),
    Serif,
    SansSerif,
    Cursive,
    Fantasy,
    Monospace,
}

/// A family as a value: the name's characters or the generic family.
pub enum FamilyView {
    Name(Seq<char>),
    Serif,
    SansSerif,
    Cursive,
    Fantasy,
    Monospace,
}

impl<'a> View for Family<'a> {
    type V = FamilyView;

    open spec fn view(&self) -> FamilyView {
        match *self {
            Family::Name(n) => FamilyView::Name(n@),
            Family::Serif => FamilyView::Serif,
            Family::SansSerif => FamilyView::SansSerif,
            Family::Cursive => FamilyView::Cursive,
            Family::Fantasy => FamilyView::Fantasy,
            Family::Monospace => FamilyView::Monospace,
        }
    }
}

impl View for FamilyOwned {
    type V = FamilyView;

    open spec fn view(&self) -> FamilyView {
        match *self {
            FamilyOwned::Name(n) => FamilyView::Name(n@),
            FamilyOwned::Serif => FamilyView::Serif,
            FamilyOwned::SansSerif => FamilyView::SansSerif,
            FamilyOwned::Cursive => FamilyView::Cursive,
            FamilyOwned::Fantasy => FamilyView::Fantasy,
            FamilyOwned::Monospace => FamilyView::Monospace,
        }
    }
}

impl FamilyOwned {
    pub fn new(family: Family) -> (f: Self)
        ensures
            f@ == family@,
    {
        match family {
            Family::Name(name) => FamilyOwned::Name(name.to_owned()),
            Family::Serif => FamilyOwned::Serif,
            Family::SansSerif => FamilyOwned::SansSerif,
            Family::Cursive => FamilyOwned::Cursive,
            Family::Fantasy => FamilyOwned::Fantasy,
            Family::Monospace => FamilyOwned::Monospace,
        }
    }

    pub fn as_family(&self) -> (f: Family)
        ensures
            f@ == self@,
    {
        match self {
            FamilyOwned::Name(name) => Family::Name(name.as_str()),
            FamilyOwned::Serif => Family::Serif,
            FamilyOwned::SansSerif => Family::SansSerif,
            FamilyOwned::Cursive => Family::Cursive,
            FamilyOwned::Fantasy => Family::Fantasy,
            FamilyOwned::Monospace => Family::Monospace,
        }
    }

    /// A copy of this family.
    pub fn duplicate(&self) -> (f: Self)
        ensures
            f@ == self@,
    {
        match self {
            FamilyOwned::Name(name) => FamilyOwned::Name(name.clone()),
            FamilyOwned::Serif => FamilyOwned::Serif,
            FamilyOwned::SansSerif => FamilyOwned::SansSerif,
            FamilyOwned::Cursive => FamilyOwned::Cursive,
            FamilyOwned::Fantasy => FamilyOwned::Fantasy,
            FamilyOwned::Monospace => FamilyOwned::Monospace,
        }
    }
}

fn family_eq(a: &Family, b: &Family) -> (r: bool)
    ensures
        r == (a@ == b@),
{
    match (a, b) {
        (Family::Name(x), Family::Name(y)) => str_eq(x, y),
        (Family::Serif, Family::Serif) => true,
        (Family::SansSerif, Family::SansSerif) => true,
        (Family::Cursive, Family::Cursive) => true,
        (Family::Fantasy, Family::Fantasy) => true,
        (Family::Monospace, Family::Monospace) => true,
        _ => false,
    }
}

/// Whether two sets of attributes are equal.
pub(crate) fn attrs_eq(a: &Attrs, b: &Attrs) -> (r: bool)
    ensures
        r == (a@ == b@),
{
    let same_color = match (a.color_opt, b.color_opt) {
        (Some(x), Some(y)) => x.0 == y.0,
        (None, None) => true,
        _ => false,
    };
    same_color && family_eq(&a.family, &b.family) && a.stretch == b.stretch && a.style == b.style
        && a.weight.0 == b.weight.0 && a.metadata == b.metadata
}

/// `str` equality.
#[verifier::external_body]
pub(crate) fn str_eq(a: &str, b: &str) -> (r: bool)
    ensures
        r == (a@ == b@),
{
    a == b
}

/// `str::contains` with a string pattern: whether `pat` occurs in `s`.
#[verifier::external_body]
pub(crate) fn str_contains(s: &str, pat: &str) -> (r: bool)
    ensures
        r == contains_substring(s@, pat@),
{
    s.contains(pat)
}

/// `pat` occurs in `s`.
pub open spec fn contains_substring(s: Seq<char>, pat: Seq<char>) -> bool {
    exists|i: int| 0 <= i && i + pat.len() <= s.len() && #[trigger] s.subrange(i, i + pat.len()) == pat
}

/// Text attributes as values.
pub struct AttrsView {
    pub color_opt: Option<Color>,
    pub family: FamilyView,
    pub stretch: Stretch,
    pub style: Style,
    pub weight: Weight,
    pub metadata: usize,
}

/// Text attributes
#[derive(Clone, Copy, Debug, Eq, Hash, PartialEq)]
pub struct Attrs<'a> {
    pub color_opt: Option<Color>,
    pub family: Family<'a>,
    pub stretch: Stretch,
    pub style: Style,
    pub weight: Weight,
    pub metadata: usize,
}

impl<'a> View for Attrs<'a> {
    type V = AttrsView;

    open spec fn view(&self) -> AttrsView {
        AttrsView {
            color_opt: self.color_opt,
            family: self.family@,
            stretch: self.stretch,
            style: self.style,
            weight: self.weight,
            metadata: self.metadata,
        }
    }
}

/// The default attributes: regular sans-serif, normal width and style, no color and
/// no metadata.
pub open spec fn default_attrs() -> AttrsView {
    AttrsView {
        color_opt: None,
        family: FamilyView::SansSerif,
        stretch: Stretch::Normal,
        style: Style::Normal,
        weight: Weight(400),
        metadata: 0,
    }
}

impl<'a> Attrs<'a> {
    /// Create a new set of attributes with sane defaults
    ///
    /// This defaults to a regular Sans-Serif font.
    pub fn new() -> (a: Self)
        ensures
            a@ == default_attrs(),
    {
        Self {
            color_opt: None,
            family: Family::SansSerif,
            stretch: Stretch::Normal,
            style: Style::Normal,
            weight: Weight(400),
            metadata: 0,
        }
    }

    /// Set [Color]
    pub fn color(self, color: Color) -> (a: Self)
        ensures
            a@ == (AttrsView { color_opt: Some(color), ..self@ }),
    {
        Self { color_opt: Some(color), ..self }
    }

    /// Set [Family]
    pub fn family(self, family: Family<'a>) -> (a: Self)
        ensures
            a@ == (AttrsView { family: family@, ..self@ }),
    {
        Self { family, ..self }
    }

    /// Set [Stretch]
    pub fn stretch(self, stretch: Stretch) -> (a: Self)
        ensures
            a@ == (AttrsView { stretch, ..self@ }),
    {
        Self { stretch, ..self }
    }

    /// Set [Style]
    pub fn style(self, style: Style) -> (a: Self)
        ensures
            a@ == (AttrsView { style, ..self@ }),
    {
        Self { style, ..self }
    }

    /// Set [Weight]
    pub fn weight(self, weight: Weight) -> (a: Self)
        ensures
            a@ == (AttrsView { weight, ..self@ }),
    {
        Self { weight, ..self }
    }

    /// Set metadata
    pub fn metadata(self, metadata: usize) -> (a: Self)
        ensures
            a@ == (AttrsView { metadata, ..self@ }),
    {
        Self { metadata, ..self }
    }

    /// Check if a font face matches: emoji faces always do, others when their style,
    /// weight and stretch are those of the attributes.
    pub fn matches(&self, face: &crate::font_index::FaceInfo) -> (r: bool)
        ensures
            r == (contains_substring(face.post_script_name@, "Emoji"@) || (face.style
                == self.style && face.weight == self.weight && face.stretch == self.stretch)),
    {
        str_contains(face.post_script_name.as_str(), "Emoji") || (face.style == self.style
            && face.weight == self.weight && face.stretch == self.stretch)
    }

    /// Check if this set of attributes can be shaped with another
    pub fn compatible(&self, other: &Self) -> (r: bool)
        ensures
            r == (self.family@ == other.family@ && self.stretch == other.stretch && self.style
                == other.style && self.weight == other.weight),
    {
        family_eq(&self.family, &other.family) && self.stretch == other.stretch && self.style
            == other.style && self.weight == other.weight
    }
}

/// An owned version of [`Attrs`]
#[derive(Clone, Debug, Eq, Hash, PartialEq)]
pub struct AttrsOwned {
    pub color_opt: Option<Color>,
    pub family_owned: FamilyOwned,
    pub stretch: Stretch,
    pub style: Style,
    pub weight: Weight,
    pub metadata: usize,
}

impl View for AttrsOwned {
    type V = AttrsView;

    open spec fn view(&self) -> AttrsView {
        AttrsView {
            color_opt: self.color_opt,
            family: self.family_owned@,
            stretch: self.stretch,
            style: self.style,
            weight: self.weight,
            metadata: self.metadata,
        }
    }
}

impl AttrsOwned {
    pub fn new(attrs: Attrs) -> (a: Self)
        ensures
            a@ == attrs@,
    {
        Self {
            color_opt: attrs.color_opt,
            family_owned: FamilyOwned::new(attrs.family),
            stretch: attrs.stretch,
            style: attrs.style,
            weight: attrs.weight,
            metadata: attrs.metadata,
        }
    }

    pub fn as_attrs(&self) -> (a: Attrs)
        ensures
            a@ == self@,
    {
        Attrs {
            color_opt: self.color_opt,
            family: self.family_owned.as_family(),
            stretch: self.stretch,
            style: self.style,
            weight: self.weight,
            metadata: self.metadata,
        }
    }

    /// A copy of these attributes.
    pub fn duplicate(&self) -> (a: Self)
        ensures
            a@ == self@,
    {
        Self {
            color_opt: self.color_opt,
            family_owned: self.family_owned.duplicate(),
            stretch: self.stretch,
            style: self.style,
            weight: self.weight,
            metadata: self.metadata,
        }
    }
}

#[verifier::external_type_specification]
#[verifier::external_body]
#[verifier::reject_recursive_types(K)]
#[verifier::reject_recursive_types(V)]
pub struct ExRangeMap<K, V>(RangeMap<K, V>);

/// `RangeMap`'s derived `Clone`; nothing is stated of the copy.
pub assume_specification<K: Clone, V: Clone>[ <RangeMap<K, V> as Clone>::clone ](
    m: &RangeMap<K, V>,
) -> RangeMap<K, V>;

/// The attributes a span map assigns to each covered index.
pub uninterp spec fn span_points(m: RangeMap<usize, AttrsOwned>) -> Map<usize, AttrsView>;

/// Index `k` is in the entry's range.
pub open spec fn in_entry(e: (usize, usize, AttrsView), k: usize) -> bool {
    e.0 <= k < e.1
}

/// `(start, end, attributes)` entries: non-empty, disjoint, in increasing order, and
/// together assigning exactly `points`.
pub open spec fn entries_cover(entries: Seq<(usize, usize, AttrsView)>, points: Map<usize, AttrsView>) -> bool {
    &&& forall|i: int| 0 <= i < entries.len() ==> (#[trigger] entries[i]).0 < entries[i].1
    &&& forall|i: int, j: int| 0 <= i < j < entries.len() ==> (#[trigger] entries[i]).1 <= (#[trigger] entries[j]).0
    &&& forall|k: usize|
        #[trigger] points.contains_key(k) <==> exists|i: int|
            0 <= i < entries.len() && #[trigger] in_entry(entries[i], k)
    &&& forall|i: int, k: usize|
        0 <= i < entries.len() && #[trigger] in_entry(entries[i], k) ==> points[k] == entries[i].2
}

/// `points` with every index of `start..end` assigned `v`.
pub open spec fn assign_range(points: Map<usize, AttrsView>, start: usize, end: usize, v: AttrsView) -> Map<usize, AttrsView> {
    Map::new(
        |k: usize| points.contains_key(k) || (start <= k < end),
        |k: usize| if start <= k < end { v } else { points[k] },
    )
}

/// `points` without the indices of `start..end`.
pub open spec fn clear_range(points: Map<usize, AttrsView>, start: usize, end: usize) -> Map<usize, AttrsView> {
    Map::new(|k: usize| points.contains_key(k) && !(start <= k < end), |k: usize| points[k])
}

/// `RangeMap::new`: an empty map.
#[verifier::external_body]
fn span_map_new() -> (m: RangeMap<usize, AttrsOwned>)
    ensures
        span_points(m).dom() == Set::<usize>::empty(),
{
    RangeMap::new()
}

/// `RangeMap::insert`: assigns a value to every index of a range, replacing what was
/// there (equal neighbours are merged, which changes no index's value); panics on an
/// empty range.
#[verifier::external_body]
fn span_map_insert(m: &mut RangeMap<usize, AttrsOwned>, start: usize, end: usize, v: AttrsOwned)
    requires
        start < end,
    ensures
        span_points(*final(m)) == assign_range(span_points(*old(m)), start, end, v@),
{
    m.insert(start..end, v)
}

/// `RangeMap::remove`: unassigns every index of a range; panics on an empty range.
#[verifier::external_body]
fn span_map_remove(m: &mut RangeMap<usize, AttrsOwned>, start: usize, end: usize)
    requires
        start < end,
    ensures
        span_points(*final(m)) == clear_range(span_points(*old(m)), start, end),
{
    m.remove(start..end)
}

/// `RangeMap::get`: the value assigned to an index.
#[verifier::external_body]
fn span_map_get(m: &RangeMap<usize, AttrsOwned>, k: usize) -> (r: Option<&AttrsOwned>)
    ensures
        match r {
            Some(v) => span_points(*m).contains_key(k) && v@ == span_points(*m)[k],
            None => !span_points(*m).contains_key(k),
        },
{
    m.get(&k)
}

/// `RangeMap::clear`: unassigns everything.
#[verifier::external_body]
fn span_map_clear(m: &mut RangeMap<usize, AttrsOwned>)
    ensures
        span_points(*final(m)).dom() == Set::<usize>::empty(),
{
    m.clear()
}

/// `RangeMap`'s `==`: it compares the stored ranges and values in order, and since the
/// map coalesces touching ranges of equal values, the stored ranges follow from what
/// each index is assigned; so two maps are equal exactly when they assign the same
/// values to the same indices.
#[verifier::external_body]
fn span_map_eq(a: &RangeMap<usize, AttrsOwned>, b: &RangeMap<usize, AttrsOwned>) -> (r: bool)
    ensures
        r == (span_points(*a) == span_points(*b)),
{
    a == b
}

/// `RangeMap::iter`, as owned entries: the stored ranges in increasing order, each with
/// its value.
#[verifier::external_body]
fn span_map_entries(m: &RangeMap<usize, AttrsOwned>) -> (v: Vec<(usize, usize, AttrsOwned)>)
    ensures
        entries_cover(v@.map_values(|e: (usize, usize, AttrsOwned)| (e.0, e.1, e.2@)), span_points(*m)),
{
    m.iter().map(|(r, a)| (r.start, r.end, a.duplicate())).collect()
}

/// List of text attributes to apply to a line
#[derive(Debug, Clone, Eq, PartialEq)]
pub struct AttrsList {
    defaults: AttrsOwned,
    spans: RangeMap<usize, AttrsOwned>,
}

impl AttrsList {
    /// The attributes used where no span applies.
    pub closed spec fn defaults_view(&self) -> AttrsView {
        self.defaults@
    }

    /// The attributes of each index covered by a span.
    pub closed spec fn spans_view(&self) -> Map<usize, AttrsView> {
        span_points(self.spans)
    }

    /// Create a new attributes list with a set of default [Attrs]
    pub fn new(defaults: Attrs) -> (l: Self)
        ensures
            l.defaults_view() == defaults@,
            l.spans_view() == Map::<usize, AttrsView>::empty(),
    {
        Self { defaults: AttrsOwned::new(defaults), spans: span_map_new() }
    }

    /// Get the default [Attrs]
    pub fn defaults(&self) -> (a: Attrs)
        ensures
            a@ == self.defaults_view(),
    {
        self.defaults.as_attrs()
    }

    /// Get the current attribute spans, in increasing order.
    pub fn spans(&self) -> (v: Vec<(usize, usize, AttrsOwned)>)
        ensures
            entries_cover(v@.map_values(|e: (usize, usize, AttrsOwned)| (e.0, e.1, e.2@)), self.spans_view()),
    {
        span_map_entries(&self.spans)
    }

    /// Clear the current attribute spans
    pub fn clear_spans(&mut self)
        ensures
            final(self).defaults_view() == old(self).defaults_view(),
            final(self).spans_view() == Map::<usize, AttrsView>::empty(),
    {
        span_map_clear(&mut self.spans);
    }

    /// Add an attribute span, removes any previous matching parts of spans; an empty
    /// range changes nothing.
    pub fn add_span(&mut self, start: usize, end: usize, attrs: Attrs)
        requires
            start <= end,
        ensures
            final(self).defaults_view() == old(self).defaults_view(),
            final(self).spans_view() == if start == end {
                old(self).spans_view()
            } else {
                assign_range(old(self).spans_view(), start, end, attrs@)
            },
    {
        //do not support 1..1 even if by accident.
        if start == end {
            return;
        }
        span_map_insert(&mut self.spans, start, end, AttrsOwned::new(attrs));
    }

    /// Get the attribute span for an index
    ///
    /// This returns a span that contains the index
    pub fn get_span(&self, index: usize) -> (a: Attrs)
        ensures
            a@ == if self.spans_view().contains_key(index) {
                self.spans_view()[index]
            } else {
                self.defaults_view()
            },
    {
        match span_map_get(&self.spans, index) {
            Some(v) => v.as_attrs(),
            None => self.defaults.as_attrs(),
        }
    }
}

/// Whether two attributes lists have the same defaults and the same spans.
pub(crate) fn attrs_list_eq(a: &AttrsList, b: &AttrsList) -> (r: bool)
    ensures
        r == (a.defaults_view() == b.defaults_view() && a.spans_view() == b.spans_view()),
{
    let da = a.defaults.as_attrs();
    let db = b.defaults.as_attrs();
    attrs_eq(&da, &db) && span_map_eq(&a.spans, &b.spans)
}

/// The spans that lie before `index`.
pub open spec fn points_below(p: Map<usize, AttrsView>, index: usize) -> Map<usize, AttrsView> {
    Map::new(|k: usize| p.contains_key(k) && k < index, |k: usize| p[k])
}

/// The spans from `index` on, moved to start at zero.
pub open spec fn points_shifted_from(p: Map<usize, AttrsView>, index: usize) -> Map<
    usize,
    AttrsView,
> {
    Map::new(
        |k: usize| k + index <= usize::MAX && p.contains_key((k + index) as usize),
        |k: usize| p[(k + index) as usize],
    )
}

/// Keeping what lies below `a` and then below `b` keeps what lies below the smaller.
pub proof fn lemma_below_below(p: Map<usize, AttrsView>, a: usize, b: usize)
    ensures
        points_below(points_below(p, a), b) == points_below(p, if a <= b { a } else { b }),
{
    assert(points_below(points_below(p, a), b) =~= points_below(p, if a <= b { a } else { b }));
}

/// Index `k` lies in one of the entries from `i` on.
pub open spec fn covered_from(entries: Seq<(usize, usize, AttrsView)>, i: int, k: usize) -> bool {
    exists|j: int| i <= j < entries.len() && #[trigger] in_entry(entries[j], k)
}

/// Index `k` lies in one of the first `i` entries.
pub open spec fn covered_before(entries: Seq<(usize, usize, AttrsView)>, i: int, k: usize) -> bool {
    exists|j: int| 0 <= j < i && #[trigger] in_entry(entries[j], k)
}

impl AttrsList {
    /// Split attributes list at an offset: the spans before `index` stay, and those from
    /// `index` on move to the returned list, shifted to start at zero; both keep the
    /// defaults.
    pub fn split_off(&mut self, index: usize) -> (new: Self)
        ensures
            final(self).defaults_view() == old(self).defaults_view(),
            final(self).spans_view() == points_below(old(self).spans_view(), index),
            new.defaults_view() == old(self).defaults_view(),
            new.spans_view() == points_shifted_from(old(self).spans_view(), index),
            !old(self).spans_view().contains_key(usize::MAX),
            forall|k: usize| #[trigger] new.spans_view().contains_key(k) ==> k + index < usize::MAX,
    {
        let mut new = Self::new(self.defaults.as_attrs());
        let entries = span_map_entries(&self.spans);
        let ghost p = self.spans_view();
        let ghost ev = entries@.map_values(|e: (usize, usize, AttrsOwned)| (e.0, e.1, e.2@));
        let n = entries.len();
        let mut i: usize = 0;
        while i < n
            invariant
                n == entries@.len(),
                ev == entries@.map_values(|e: (usize, usize, AttrsOwned)| (e.0, e.1, e.2@)),
                entries_cover(ev, p),
                i <= n,
                self.defaults_view() == old(self).defaults_view(),
                new.defaults_view() == old(self).defaults_view(),
                p == old(self).spans_view(),
                self.spans_view() == Map::new(
                    |k: usize| p.contains_key(k) && (k < index || covered_from(ev, i as int, k)),
                    |k: usize| p[k],
                ),
                new.spans_view() == Map::new(
                    |k: usize|
                        k + index <= usize::MAX && covered_before(ev, i as int, (k + index) as usize),
                    |k: usize| p[(k + index) as usize],
                ),
            decreases n - i,
        {
            let e = &entries[i];
            let (start, end) = (e.0, e.1);
            let ghost ei = ev[i as int];
            assert(ei.0 == start && ei.1 == end && ei.2 == e.2@);
            let ghost self_before = self.spans_view();
            let ghost new_before = new.spans_view();
            if end <= index {
            } else if start >= index {
                span_map_remove(&mut self.spans, start, end);
                span_map_insert(&mut new.spans, start - index, end - index, e.2.duplicate());
            } else {
                span_map_remove(&mut self.spans, start, end);
                span_map_insert(&mut new.spans, 0, end - index, e.2.duplicate());
                span_map_insert(&mut self.spans, start, index, e.2.duplicate());
            }
            proof {
                lemma_split_step(ev, p, i as int, index, self_before, self.spans_view(), new_before, new.spans_view());
            }
            i = i + 1;
        }
        proof {
            if p.contains_key(usize::MAX) {
                let j = choose|j: int| 0 <= j < ev.len() && #[trigger] in_entry(ev[j], usize::MAX);
            }
            assert forall|k: usize| #[trigger] new.spans_view().contains_key(k) implies k + index < usize::MAX by {
                let kk = (k + index) as usize;
                let j = choose|j: int| 0 <= j < n && #[trigger] in_entry(ev[j], kk);
            }
            assert(self.spans_view() =~= points_below(p, index)) by {
                assert forall|k: usize| #[trigger] self.spans_view().contains_key(k) == points_below(p, index).contains_key(k) by {
                    if covered_from(ev, n as int, k) {
                        let j = choose|j: int| n <= j < ev.len() && #[trigger] in_entry(ev[j], k);
                    }
                }
            }
            assert(new.spans_view() =~= points_shifted_from(p, index)) by {
                assert forall|k: usize| #[trigger] new.spans_view().contains_key(k) == points_shifted_from(p, index).contains_key(k) by {
                    if k + index <= usize::MAX {
                        let kk = (k + index) as usize;
                        if p.contains_key(kk) {
                            let j = choose|j: int| 0 <= j < ev.len() && #[trigger] in_entry(ev[j], kk);
                            assert(covered_before(ev, n as int, kk));
                        }
                        if covered_before(ev, n as int, kk) {
                            let j = choose|j: int| 0 <= j < n && #[trigger] in_entry(ev[j], kk);
                            assert(p.contains_key(kk));
                        }
                    }
                }
            }
        }
        new
    }
}

/// One entry of a split: how the kept and the moved spans change.
proof fn lemma_split_step(
    ev: Seq<(usize, usize, AttrsView)>,
    p: Map<usize, AttrsView>,
    i: int,
    index: usize,
    self_before: Map<usize, AttrsView>,
    self_after: Map<usize, AttrsView>,
    new_before: Map<usize, AttrsView>,
    new_after: Map<usize, AttrsView>,
)
    requires
        entries_cover(ev, p),
        0 <= i < ev.len(),
        self_before == Map::new(
            |k: usize| p.contains_key(k) && (k < index || covered_from(ev, i, k)),
            |k: usize| p[k],
        ),
        new_before == Map::new(
            |k: usize| k + index <= usize::MAX && covered_before(ev, i, (k + index) as usize),
            |k: usize| p[(k + index) as usize],
        ),
        ({
            let (start, end, v) = ev[i];
            if end <= index {
                self_after == self_before && new_after == new_before
            } else if start >= index {
                self_after == clear_range(self_before, start, end) && new_after == assign_range(
                    new_before,
                    (start - index) as usize,
                    (end - index) as usize,
                    v,
                )
            } else {
                self_after == assign_range(clear_range(self_before, start, end), start, index, v)
                    && new_after == assign_range(new_before, 0, (end - index) as usize, v)
            }
        }),
    ensures
        self_after == Map::new(
            |k: usize| p.contains_key(k) && (k < index || covered_from(ev, i + 1, k)),
            |k: usize| p[k],
        ),
        new_after == Map::new(
            |k: usize| k + index <= usize::MAX && covered_before(ev, i + 1, (k + index) as usize),
            |k: usize| p[(k + index) as usize],
        ),
{
    let (start, end, v) = ev[i];
    assert(in_entry(ev[i], start));
    let target_self = Map::new(
        |k: usize| p.contains_key(k) && (k < index || covered_from(ev, i + 1, k)),
        |k: usize| p[k],
    );
    let target_new = Map::new(
        |k: usize| k + index <= usize::MAX && covered_before(ev, i + 1, (k + index) as usize),
        |k: usize| p[(k + index) as usize],
    );
    assert forall|k: usize| #[trigger] covered_from(ev, i, k) == (in_entry(ev[i], k) || covered_from(ev, i + 1, k)) by {
        if covered_from(ev, i, k) {
            let j = choose|j: int| i <= j < ev.len() && #[trigger] in_entry(ev[j], k);
            if j != i {
                assert(covered_from(ev, i + 1, k));
            }
        }
        if covered_from(ev, i + 1, k) {
            let j = choose|j: int| i + 1 <= j < ev.len() && #[trigger] in_entry(ev[j], k);
            assert(covered_from(ev, i, k));
        }
    }
    assert forall|k: usize| #[trigger] covered_before(ev, i + 1, k) == (in_entry(ev[i], k) || covered_before(ev, i, k)) by {
        if covered_before(ev, i + 1, k) {
            let j = choose|j: int| 0 <= j < i + 1 && #[trigger] in_entry(ev[j], k);
            if j != i {
                assert(covered_before(ev, i, k));
            }
        }
        if covered_before(ev, i, k) {
            let j = choose|j: int| 0 <= j < i && #[trigger] in_entry(ev[j], k);
            assert(covered_before(ev, i + 1, k));
        }
    }
    // An index of entry `i` is in no other entry, and holds the entry's value.
    assert forall|k: usize| in_entry(ev[i], k) implies !#[trigger] covered_from(ev, i + 1, k) && p.contains_key(k) && p[k] == v by {
        if covered_from(ev, i + 1, k) {
            let j = choose|j: int| i + 1 <= j < ev.len() && #[trigger] in_entry(ev[j], k);
            assert(ev[i].1 <= ev[j].0);
        }
    }
    assert forall|k: usize| in_entry(ev[i], k) implies !#[trigger] covered_before(ev, i, k) by {
        if covered_before(ev, i, k) {
            let j = choose|j: int| 0 <= j < i && #[trigger] in_entry(ev[j], k);
            assert(ev[j].1 <= ev[i].0);
        }
    }
    assert forall|k: usize| #[trigger] covered_before(ev, i, k) implies p.contains_key(k) && k < start by {
        let j = choose|j: int| 0 <= j < i && #[trigger] in_entry(ev[j], k);
        assert(ev[j].1 <= ev[i].0);
    }
    assert forall|k: usize| #[trigger] self_after.contains_key(k) == target_self.contains_key(k) by {
        assert(self_before.contains_key(k) == (p.contains_key(k) && (k < index || covered_from(ev, i, k))));
        assert(target_self.contains_key(k) == (p.contains_key(k) && (k < index || covered_from(ev, i + 1, k))));
        assert(covered_from(ev, i, k) == (in_entry(ev[i], k) || covered_from(ev, i + 1, k)));
        if in_entry(ev[i], k) {
            assert(!covered_from(ev, i + 1, k));
            assert(p.contains_key(k));
        }
        if end <= index {
        } else if start >= index {
            assert(self_after.contains_key(k) == (self_before.contains_key(k) && !(start <= k < end)));
        } else {
            assert(self_after.contains_key(k) == ((self_before.contains_key(k) && !(start <= k < end)) || (start <= k < index)));
        }
    }
    assert forall|k: usize| #[trigger] self_after.contains_key(k) implies self_after[k] == target_self[k] by {
        if in_entry(ev[i], k) {
            assert(p[k] == v);
        }
    }
    assert(self_after =~= target_self);
    assert(new_after =~= target_new);
}

/// The attributes of an index just covered by a span are that span's: what
/// `get_span` reads is what `add_span` wrote, and other indices keep theirs.
pub proof fn lemma_span_read_after_write(
    points: Map<usize, AttrsView>,
    start: usize,
    end: usize,
    v: AttrsView,
    k: usize,
)
    ensures
        start <= k < end ==> assign_range(points, start, end, v).contains_key(k) && assign_range(
            points,
            start,
            end,
            v,
        )[k] == v,
        !(start <= k < end) ==> (assign_range(points, start, end, v).contains_key(k)
            <==> points.contains_key(k)),
        !(start <= k < end) && points.contains_key(k) ==> assign_range(points, start, end, v)[k]
            == points[k],
{
}

/// Splitting loses and invents nothing: every index before the split point keeps its
/// span in the kept list, and every index from it on finds its span in the moved
/// list at the index less the split point.
pub proof fn lemma_split_recombines(p: Map<usize, AttrsView>, index: usize, k: usize)
    ensures
        k < index ==> (points_below(p, index).contains_key(k) <==> p.contains_key(k)),
        k < index && p.contains_key(k) ==> points_below(p, index)[k] == p[k],
        k >= index ==> (points_shifted_from(p, index).contains_key((k - index) as usize)
            <==> p.contains_key(k)),
        k >= index && p.contains_key(k) ==> points_shifted_from(p, index)[(k - index) as usize]
            == p[k],
        points_below(p, index).contains_key(k) ==> k < index,
{
}

} // verus!
