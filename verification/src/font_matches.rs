//! The fonts that match a set of text attributes, ordered for the fallback search:
//! closest weight first.

use vstd::prelude::*;

use crate::attrs::{contains_substring, Attrs, AttrsView};
use crate::font_index::{FaceInfo, FaceInfoView};

verus! {

/// A font that matched the attributes: how far its weight is from the asked one, its
/// weight, and the id that stands for its face (ordered as the faces' ids are).
#[derive(Clone, Copy, Debug, PartialEq, Eq, PartialOrd, Ord, Hash, Structural)]
pub struct FontMatchKey {
    pub font_weight_diff: u16,
    pub font_weight: u16,
    pub id: u64,
}

/// The key as a tuple, in the order keys compare.
pub open spec fn key_tuple(k: FontMatchKey) -> (u16, u16, u64) {
    (k.font_weight_diff, k.font_weight, k.id)
}

/// Tuples in lexicographic order.
pub open spec fn tuple_le(a: (u16, u16, u64), b: (u16, u16, u64)) -> bool {
    ||| a.0 < b.0
    ||| a.0 == b.0 && a.1 < b.1
    ||| a.0 == b.0 && a.1 == b.1 && a.2 <= b.2
}

/// Tuples in non-decreasing lexicographic order.
pub open spec fn tuples_sorted(s: Seq<(u16, u16, u64)>) -> bool {
    forall|i: int, j: int| 0 <= i < j < s.len() ==> tuple_le(#[trigger] s[i], #[trigger] s[j])
}

/// The distance between two weights.
pub open spec fn weight_diff(a: u16, b: u16) -> u16 {
    if a < b {
        (b - a) as u16
    } else {
        (a - b) as u16
    }
}

/// Whether a face matches the attributes: emoji faces always do, others when their
/// style, weight and stretch are those asked for.
pub open spec fn face_matches(attrs: AttrsView, f: FaceInfoView) -> bool {
    contains_substring(f.post_script_name, "Emoji"@) || (f.style == attrs.style && f.weight == attrs.weight.0
        && f.stretch == attrs.stretch)
}

/// The keys of the matching faces, in the faces' order.
pub open spec fn matched_keys(attrs: AttrsView, faces: Seq<(u64, FaceInfoView)>) -> Seq<(u16, u16, u64)>
    decreases faces.len(),
{
    if faces.len() == 0 {
        Seq::empty()
    } else {
        let rest = matched_keys(attrs, faces.drop_last());
        let (id, f) = faces.last();
        if face_matches(attrs, f) {
            rest.push((weight_diff(attrs.weight.0, f.weight), f.weight, id))
        } else {
            rest
        }
    }
}

/// `slice::sort` on keys as tuples: the same keys, in non-decreasing order, tuples
/// comparing lexicographically.
#[verifier::external_body]
fn sort_tuples(v: &mut Vec<(u16, u16, u64)>)
    ensures
        final(v)@.to_multiset() == old(v)@.to_multiset(),
        tuples_sorted(final(v)@),
{
    v.sort();
}

/// The faces that match the attributes, as keys ordered by weight distance, then
/// weight, then id: the fonts with the asked weight come first.
pub fn font_match_keys(attrs: &Attrs, faces: &Vec<(u64, FaceInfo)>) -> (keys: Vec<FontMatchKey>)
    ensures
        keys@.map_values(|k: FontMatchKey| key_tuple(k)).to_multiset() == matched_keys(
            attrs@,
            faces@.map_values(|p: (u64, FaceInfo)| (p.0, p.1@)),
        ).to_multiset(),
        tuples_sorted(keys@.map_values(|k: FontMatchKey| key_tuple(k))),
{
    let ghost fv = faces@.map_values(|p: (u64, FaceInfo)| (p.0, p.1@));
    let mut tuples: Vec<(u16, u16, u64)> = Vec::new();
    let mut i: usize = 0;
    while i < faces.len()
        invariant
            i <= faces@.len(),
            fv == faces@.map_values(|p: (u64, FaceInfo)| (p.0, p.1@)),
            tuples@ == matched_keys(attrs@, fv.take(i as int)),
        decreases faces@.len() - i,
    {
        let (id, face) = &faces[i];
        proof {
            assert(fv.take(i + 1).drop_last() =~= fv.take(i as int));
            assert(fv.take(i + 1).last() == (*id, face@));
        }
        if attrs.matches(face) {
            let w = face.weight.0;
            let diff = if attrs.weight.0 < w {
                w - attrs.weight.0
            } else {
                attrs.weight.0 - w
            };
            tuples.push((diff, w, *id));
        }
        i = i + 1;
    }
    proof {
        assert(fv.take(faces@.len() as int) =~= fv);
    }
    sort_tuples(&mut tuples);
    let mut keys: Vec<FontMatchKey> = Vec::new();
    let mut j: usize = 0;
    while j < tuples.len()
        invariant
            j <= tuples@.len(),
            keys@.map_values(|k: FontMatchKey| key_tuple(k)) == tuples@.take(j as int),
        decreases tuples@.len() - j,
    {
        let (d, w, id) = tuples[j];
        let key = FontMatchKey { font_weight_diff: d, font_weight: w, id };
        let ghost prev = keys@;
        keys.push(key);
        proof {
            assert(key_tuple(key) == tuples@[j as int]);
            assert(tuples@.take(j + 1) =~= tuples@.take(j as int).push(tuples@[j as int]));
            assert(keys@.map_values(|k: FontMatchKey| key_tuple(k)) =~= prev.map_values(|k: FontMatchKey| key_tuple(k)).push(
                key_tuple(key),
            ));
        }
        j = j + 1;
    }
    proof {
        assert(tuples@.take(tuples@.len() as int) =~= tuples@);
    }
    keys
}

/// Matching gives one answer: any two key lists that each hold the keys of the
/// matching faces and are sorted are the same list, so two calls of
/// `font_match_keys` on equal attributes and faces return equal keys.
pub proof fn lemma_font_match_keys_unique(
    attrs: AttrsView,
    faces: Seq<(u64, FaceInfoView)>,
    a: Seq<(u16, u16, u64)>,
    b: Seq<(u16, u16, u64)>,
)
    requires
        a.to_multiset() == matched_keys(attrs, faces).to_multiset(),
        b.to_multiset() == matched_keys(attrs, faces).to_multiset(),
        tuples_sorted(a),
        tuples_sorted(b),
    ensures
        a == b,
{
    let leq = |x: (u16, u16, u64), y: (u16, u16, u64)| tuple_le(x, y);
    assert(vstd::relations::total_ordering(leq));
    assert(vstd::relations::sorted_by(a, leq)) by {
        assert forall|i: int, j: int| 0 <= i < j < a.len() implies #[trigger] leq(a[i], a[j]) by {
            assert(tuple_le(a[i], a[j]));
        }
    }
    assert(vstd::relations::sorted_by(b, leq)) by {
        assert forall|i: int, j: int| 0 <= i < j < b.len() implies #[trigger] leq(b[i], b[j]) by {
            assert(tuple_le(b[i], b[j]));
        }
    }
    vstd::seq_lib::lemma_sorted_unique(a, b, leq);
}

} // verus!
