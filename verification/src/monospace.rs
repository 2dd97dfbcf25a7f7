//! The monospace fonts of a font collection: the ids of its monospace faces, an index
//! from each script to the monospace fonts that cover it, and the fonts that cover
//! any of a word's scripts.

use std::collections::HashMap;
use vstd::prelude::*;

use crate::attrs::{contains_substring, str_contains};
use crate::font_index::{FaceInfo, FaceInfoView};

verus! {

broadcast use {
    vstd::seq_lib::group_to_multiset_ensures,
    vstd::std_specs::hash::group_hash_axioms,
    vstd::seq_lib::lemma_seq_contains_after_push,
};

/// A face counts as monospace when it says so and is not an emoji face.
pub open spec fn is_monospace_face(f: FaceInfoView) -> bool {
    f.monospaced && !contains_substring(f.post_script_name, "Emoji"@)
}

/// The ids of the monospace faces, in the faces' order.
pub open spec fn monospace_ids(faces: Seq<(u64, FaceInfoView)>) -> Seq<u64>
    decreases faces.len(),
{
    if faces.len() == 0 {
        Seq::empty()
    } else {
        let rest = monospace_ids(faces.drop_last());
        if is_monospace_face(faces.last().1) {
            rest.push(faces.last().0)
        } else {
            rest
        }
    }
}

/// Ids in non-decreasing order.
pub open spec fn ids_sorted(s: Seq<u64>) -> bool {
    forall|i: int, j: int| 0 <= i < j < s.len() ==> #[trigger] s[i] <= #[trigger] s[j]
}

/// Ids in increasing order: sorted, none twice.
pub open spec fn ids_strictly_sorted(s: Seq<u64>) -> bool {
    forall|i: int, j: int| 0 <= i < j < s.len() ==> #[trigger] s[i] < #[trigger] s[j]
}

/// `slice::sort` on ids: the same ids, in non-decreasing order.
#[verifier::external_body]
fn sort_ids(v: &mut Vec<u64>)
    ensures
        final(v)@.to_multiset() == old(v)@.to_multiset(),
        ids_sorted(final(v)@),
{
    v.sort();
}

/// The ids of the monospace faces, sorted: faces that say they are monospaced, less
/// the emoji faces.
pub fn monospace_font_ids(faces: &Vec<(u64, FaceInfo)>) -> (ids: Vec<u64>)
    ensures
        ids@.to_multiset() == monospace_ids(faces@.map_values(|p: (u64, FaceInfo)| (p.0, p.1@))).to_multiset(),
        ids_sorted(ids@),
{
    let ghost fv = faces@.map_values(|p: (u64, FaceInfo)| (p.0, p.1@));
    let mut ids: Vec<u64> = Vec::new();
    let mut i: usize = 0;
    while i < faces.len()
        invariant
            i <= faces@.len(),
            fv == faces@.map_values(|p: (u64, FaceInfo)| (p.0, p.1@)),
            ids@ == monospace_ids(fv.take(i as int)),
        decreases faces@.len() - i,
    {
        let (id, face) = &faces[i];
        proof {
            assert(fv.take(i + 1).drop_last() =~= fv.take(i as int));
            assert(fv.take(i + 1).last() == (*id, face@));
        }
        if face.monospaced && !str_contains(face.post_script_name.as_str(), "Emoji") {
            ids.push(*id);
        }
        i = i + 1;
    }
    proof {
        assert(fv.take(faces@.len() as int) =~= fv);
    }
    sort_ids(&mut ids);
    ids
}

/// A script tag as a number: its four bytes, most significant first.
pub open spec fn tag_value(t: [u8; 4]) -> u32 {
    (t@[0] as int * 0x100_0000 + t@[1] as int * 0x1_0000 + t@[2] as int * 0x100 + t@[3] as int) as u32
}

/// A script tag as a number: its four bytes, most significant first.
pub fn script_key(t: [u8; 4]) -> (k: u32)
    ensures
        k == tag_value(t),
{
    (t[0] as u32) * 0x100_0000 + (t[1] as u32) * 0x1_0000 + (t[2] as u32) * 0x100 + (t[3] as u32)
}

/// The font `id` once for each time `tag` is among its script tags.
pub open spec fn tag_hits(id: u64, tags: Seq<u32>, tag: u32) -> Seq<u64>
    decreases tags.len(),
{
    if tags.len() == 0 {
        Seq::empty()
    } else {
        let rest = tag_hits(id, tags.drop_last(), tag);
        if tags.last() == tag {
            rest.push(id)
        } else {
            rest
        }
    }
}

/// The fonts that cover script `tag`, in the fonts' order.
pub open spec fn script_fonts(fonts: Seq<(u64, Seq<u32>)>, tag: u32) -> Seq<u64>
    decreases fonts.len(),
{
    if fonts.len() == 0 {
        Seq::empty()
    } else {
        script_fonts(fonts.drop_last(), tag) + tag_hits(fonts.last().0, fonts.last().1, tag)
    }
}

/// Fonts with their script tags, the tags as numbers.
pub open spec fn font_tags(fonts: Seq<(u64, Vec<[u8; 4]>)>) -> Seq<(u64, Seq<u32>)> {
    fonts.map_values(|p: (u64, Vec<[u8; 4]>)| (p.0, p.1@.map_values(|t: [u8; 4]| tag_value(t))))
}

/// `m` maps each script to the fonts that cover it, and has no script that none
/// covers.
pub open spec fn index_of(m: Map<u32, Seq<u64>>, fonts: Seq<(u64, Seq<u32>)>) -> bool {
    forall|tag: u32|
        #![trigger m.contains_key(tag)]
        #![trigger script_fonts(fonts, tag)]
        (m.contains_key(tag) <==> script_fonts(fonts, tag).len() > 0) && (m.contains_key(tag)
            ==> m[tag] == script_fonts(fonts, tag))
}

/// The fonts of a script from the first `i` fonts and the font `id` with the tags
/// `tags` so far.
pub open spec fn partial_fonts(fonts: Seq<(u64, Seq<u32>)>, i: int, id: u64, tags: Seq<u32>, tag: u32) -> Seq<u64> {
    script_fonts(fonts.take(i), tag) + tag_hits(id, tags, tag)
}

/// `m` indexes the first `i` fonts and the font `id` with the tags `tags` so far.
pub open spec fn partial_index_of(
    m: Map<u32, Seq<u64>>,
    fonts: Seq<(u64, Seq<u32>)>,
    i: int,
    id: u64,
    tags: Seq<u32>,
) -> bool {
    forall|tag: u32|
        #![trigger m.contains_key(tag)]
        #![trigger partial_fonts(fonts, i, id, tags, tag)]
        (m.contains_key(tag) <==> partial_fonts(fonts, i, id, tags, tag).len() > 0) && (m.contains_key(
            tag,
        ) ==> m[tag] == partial_fonts(fonts, i, id, tags, tag))
}

/// Some script among `tags` has `id` among its fonts.
pub open spec fn covers(m: Map<u32, Seq<u64>>, tags: Seq<u32>, id: u64) -> bool {
    exists|k: int| 0 <= k < tags.len() && m.contains_key(tags[k]) && #[trigger] m[tags[k]].contains(id)
}

/// Covering by the first `i + 1` tags is covering by the first `i` or by tag `i`.
proof fn lemma_covers_step(m: Map<u32, Seq<u64>>, tags: Seq<u32>, i: int, x: u64)
    requires
        0 <= i < tags.len(),
    ensures
        covers(m, tags.take(i + 1), x) <==> (covers(m, tags.take(i), x) || (m.contains_key(tags[i])
            && m[tags[i]].contains(x))),
{
    let t1 = tags.take(i + 1);
    let t0 = tags.take(i);
    if covers(m, t1, x) {
        let k = choose|k: int| 0 <= k < t1.len() && m.contains_key(t1[k]) && #[trigger] m[t1[k]].contains(x);
        if k < i {
            assert(t0[k] == t1[k]);
        }
    }
    if covers(m, t0, x) {
        let k = choose|k: int| 0 <= k < t0.len() && m.contains_key(t0[k]) && #[trigger] m[t0[k]].contains(x);
        assert(t1[k] == t0[k]);
    }
    if m.contains_key(tags[i]) && m[tags[i]].contains(x) {
        assert(t1[i] == tags[i]);
    }
}

/// For each script, the monospace fonts that cover it.
pub struct ScriptIndex {
    map: HashMap<u32, Vec<u64>>,
}

impl View for ScriptIndex {
    type V = Map<u32, Seq<u64>>;

    closed spec fn view(&self) -> Map<u32, Seq<u64>> {
        self.map@.map_values(|v: Vec<u64>| v@)
    }
}

/// Add `id` to the fonts of `key` in `map`.
fn add_font(map: &mut HashMap<u32, Vec<u64>>, key: u32, id: u64)
    ensures
        final(map)@.map_values(|v: Vec<u64>| v@) == old(map)@.map_values(|v: Vec<u64>| v@).insert(
            key,
            if old(map)@.contains_key(key) {
                old(map)@[key]@.push(id)
            } else {
                seq![id]
            },
        ),
{
    let ghost m0 = map@;
    match map.remove(&key) {
        Some(mut v) => {
            v.push(id);
            map.insert(key, v);
        },
        None => {
            let mut v: Vec<u64> = Vec::new();
            v.push(id);
            map.insert(key, v);
        },
    }
    proof {
        assert(map@.map_values(|v: Vec<u64>| v@) =~= m0.map_values(|v: Vec<u64>| v@).insert(
            key,
            if m0.contains_key(key) {
                m0[key]@.push(id)
            } else {
                seq![id]
            },
        ));
    }
}

impl ScriptIndex {
    /// Index the monospace fonts, given with their script tags, by script.
    pub fn new(fonts: &Vec<(u64, Vec<[u8; 4]>)>) -> (ix: Self)
        ensures
            index_of(ix@, font_tags(fonts@)),
    {
        let ghost fv = font_tags(fonts@);
        let mut map: HashMap<u32, Vec<u64>> = HashMap::new();
        proof {
            assert(map@.map_values(|v: Vec<u64>| v@) =~= Map::<u32, Seq<u64>>::empty());
        }
        let mut i: usize = 0;
        while i < fonts.len()
            invariant
                i <= fonts@.len(),
                fv == font_tags(fonts@),
                index_of(map@.map_values(|v: Vec<u64>| v@), fv.take(i as int)),
            decreases fonts@.len() - i,
        {
            let (id, tags) = &fonts[i];
            let ghost tv = fv[i as int].1;
            proof {
                assert(fv[i as int] == (*id, tags@.map_values(|t: [u8; 4]| tag_value(t))));
                let m = map@.map_values(|v: Vec<u64>| v@);
                assert forall|tag: u32| #[trigger] partial_fonts(fv, i as int, *id, tv.take(0), tag)
                    == script_fonts(fv.take(i as int), tag) by {
                    assert(partial_fonts(fv, i as int, *id, tv.take(0), tag) =~= script_fonts(fv.take(i as int), tag));
                }
                assert(partial_index_of(m, fv, i as int, *id, tv.take(0)));
            }
            let mut j: usize = 0;
            while j < tags.len()
                invariant
                    j <= tags@.len(),
                    i < fonts@.len(),
                    tv == tags@.map_values(|t: [u8; 4]| tag_value(t)),
                    partial_index_of(map@.map_values(|v: Vec<u64>| v@), fv, i as int, *id, tv.take(j as int)),
                decreases tags@.len() - j,
            {
                let key = script_key(tags[j]);
                let ghost m0 = map@.map_values(|v: Vec<u64>| v@);
                add_font(&mut map, key, *id);
                proof {
                    let m1 = map@.map_values(|v: Vec<u64>| v@);
                    assert(tv.take(j + 1).drop_last() =~= tv.take(j as int));
                    assert(tv.take(j + 1).last() == key);
                    assert forall|tag: u32| #[trigger] partial_fonts(fv, i as int, *id, tv.take(j + 1), tag)
                        == if tag == key {
                        partial_fonts(fv, i as int, *id, tv.take(j as int), tag).push(*id)
                    } else {
                        partial_fonts(fv, i as int, *id, tv.take(j as int), tag)
                    } by {
                        assert(partial_fonts(fv, i as int, *id, tv.take(j + 1), tag) =~= if tag == key {
                            partial_fonts(fv, i as int, *id, tv.take(j as int), tag).push(*id)
                        } else {
                            partial_fonts(fv, i as int, *id, tv.take(j as int), tag)
                        });
                    }
                    assert forall|tag: u32| #![trigger m1.contains_key(tag)]
                        (m1.contains_key(tag) <==> partial_fonts(fv, i as int, *id, tv.take(j + 1), tag).len() > 0)
                        && (m1.contains_key(tag) ==> m1[tag] == partial_fonts(fv, i as int, *id, tv.take(j + 1), tag)) by {
                        assert(m0.contains_key(tag) <==> partial_fonts(fv, i as int, *id, tv.take(j as int), tag).len() > 0);
                        if m0.contains_key(tag) {
                            assert(m0[tag] == partial_fonts(fv, i as int, *id, tv.take(j as int), tag));
                        }
                    }
                }
                j = j + 1;
            }
            proof {
                let m = map@.map_values(|v: Vec<u64>| v@);
                assert(tv.take(tags@.len() as int) =~= tv);
                assert(fv.take(i + 1).drop_last() =~= fv.take(i as int));
                assert(fv.take(i + 1).last() == (*id, tv));
                assert forall|tag: u32| #![trigger m.contains_key(tag)]
                    (m.contains_key(tag) <==> script_fonts(fv.take(i + 1), tag).len() > 0) && (m.contains_key(tag)
                        ==> m[tag] == script_fonts(fv.take(i + 1), tag)) by {
                    assert(script_fonts(fv.take(i + 1), tag) == partial_fonts(fv, i as int, *id, tv, tag));
                }
            }
            i = i + 1;
        }
        proof {
            assert(fv.take(fonts@.len() as int) =~= fv);
        }
        ScriptIndex { map }
    }

    /// The monospace fonts that cover any of `scripts`, sorted, each once.
    pub fn monospace_ids_for_scripts(&self, scripts: &Vec<[u8; 4]>) -> (ids: Vec<u64>)
        ensures
            ids_strictly_sorted(ids@),
            forall|id: u64|
                #![trigger ids@.contains(id)]
                ids@.contains(id) <==> covers(self@, scripts@.map_values(|t: [u8; 4]| tag_value(t)), id),
    {
        let ghost tv = scripts@.map_values(|t: [u8; 4]| tag_value(t));
        let ghost m = self@;
        let mut all: Vec<u64> = Vec::new();
        let mut i: usize = 0;
        while i < scripts.len()
            invariant
                i <= scripts@.len(),
                tv == scripts@.map_values(|t: [u8; 4]| tag_value(t)),
                m == self@,
                forall|x: u64| #![trigger all@.contains(x)] all@.contains(x) <==> covers(m, tv.take(i as int), x),
            decreases scripts@.len() - i,
        {
            let key = script_key(scripts[i]);
            proof {
                assert(tv[i as int] == key);
            }
            if let Some(v) = self.map.get(&key) {
                proof {
                    assert(m.contains_key(key) && m[key] == v@);
                }
                let ghost before = all@;
                let mut k: usize = 0;
                while k < v.len()
                    invariant
                        k <= v@.len(),
                        forall|x: u64| #![trigger all@.contains(x)] all@.contains(x) <==> (before.contains(x)
                            || v@.take(k as int).contains(x)),
                    decreases v@.len() - k,
                {
                    let x = v[k];
                    proof {
                        assert(v@.take(k + 1) =~= v@.take(k as int).push(x));
                    }
                    all.push(x);
                    k = k + 1;
                }
                proof {
                    assert(v@.take(v@.len() as int) =~= v@);
                    assert forall|x: u64| #![trigger all@.contains(x)] all@.contains(x) <==> covers(
                        m,
                        tv.take(i + 1),
                        x,
                    ) by {
                        lemma_covers_step(m, tv, i as int, x);
                    }
                }
            } else {
                proof {
                    assert(!m.contains_key(key));
                    assert forall|x: u64| #![trigger all@.contains(x)] all@.contains(x) <==> covers(
                        m,
                        tv.take(i + 1),
                        x,
                    ) by {
                        lemma_covers_step(m, tv, i as int, x);
                    }
                }
            }
            i = i + 1;
        }
        proof {
            assert(tv.take(scripts@.len() as int) =~= tv);
        }
        let ghost gathered = all@;
        sort_ids(&mut all);
        proof {
            assert forall|x: u64| #![trigger all@.contains(x)] all@.contains(x) <==> gathered.contains(x) by {
                assert(all@.to_multiset().count(x) == gathered.to_multiset().count(x));
            }
        }
        let mut out: Vec<u64> = Vec::new();
        let mut k: usize = 0;
        while k < all.len()
            invariant
                k <= all@.len(),
                ids_sorted(all@),
                ids_strictly_sorted(out@),
                forall|x: u64| #![trigger out@.contains(x)] out@.contains(x) <==> all@.take(k as int).contains(x),
                k > 0 ==> out@.len() > 0 && out@.last() == all@[k - 1],
                k == 0 ==> out@.len() == 0,
            decreases all@.len() - k,
        {
            let x = all[k];
            proof {
                assert(all@.take(k + 1) =~= all@.take(k as int).push(x));
                if k > 0 {
                    assert(all@[k - 1] <= x);
                }
            }
            if out.len() == 0 || out[out.len() - 1] != x {
                let ghost prev = out@;
                out.push(x);
                proof {
                    assert forall|a: int, b: int| 0 <= a < b < out@.len() implies #[trigger] out@[a] < #[trigger] out@[b] by {
                        if b == out@.len() - 1 && a < b && prev.len() > 0 {
                            assert(prev[a] <= prev.last());
                        }
                    }
                }
            } else {
                proof {
                    assert(out@[out@.len() - 1] == x);
                }
            }
            k = k + 1;
        }
        proof {
            assert(all@.take(all@.len() as int) =~= all@);
        }
        out
    }
}

} // verus!
