//! The search for a font to draw a word with: the default families first (for a
//! monospace default, the monospace fonts ranked by how well they cover the word),
//! then the families listed for the word's scripts, then the common fallback
//! families, then any font that is not forbidden.
//!
//! The fonts are given as plain values: what the search reads of each font that
//! matched the text attributes.

use vstd::prelude::*;

use crate::attrs::str_eq;

verus! {

/// What the search reads of one font that matched the attributes. `id` stands for
/// the font's face and orders as the faces' ids do; `supported` counts the
/// characters of the word that the font has glyphs for, and is `None` where the font
/// does not load.
#[derive(Clone, Debug)]
pub struct FallbackFace {
    pub id: u64,
    pub font_weight_diff: u16,
    pub font_weight: u16,
    pub families: Vec<String>,
    pub monospace: bool,
    pub supported: Option<usize>,
}

/// A font of the search, as values.
pub struct FaceView {
    pub id: u64,
    pub font_weight_diff: u16,
    pub font_weight: u16,
    pub families: Seq<Seq<char>>,
    pub monospace: bool,
    pub supported: Option<usize>,
}

impl View for FallbackFace {
    type V = FaceView;

    open spec fn view(&self) -> FaceView {
        FaceView {
            id: self.id,
            font_weight_diff: self.font_weight_diff,
            font_weight: self.font_weight,
            families: self.families@.map_values(|s: String| s@),
            monospace: self.monospace,
            supported: self.supported,
        }
    }
}

/// A family the attributes ask for, by the name the font database gives it, and
/// whether it is the generic monospace family.
#[derive(Clone, Debug)]
pub struct DefaultFamily {
    pub name: String,
    pub monospace: bool,
}

/// Everything one search reads: the matched fonts in order of preference, the
/// families asked for, the fallback families of each of the word's scripts, the
/// common and the forbidden fallback families, the ids of the monospace fonts that
/// cover the word's scripts (sorted), and the number of characters in the word.
#[derive(Clone, Debug)]
pub struct FallbackQuery {
    pub faces: Vec<FallbackFace>,
    pub default_families: Vec<DefaultFamily>,
    pub script_families: Vec<Vec<String>>,
    pub common_fallback: Vec<String>,
    pub forbidden_fallback: Vec<String>,
    pub monospace_ids: Vec<u64>,
    pub word_chars: usize,
}

/// A search, as values.
pub struct QueryView {
    pub faces: Seq<FaceView>,
    pub defaults: Seq<(Seq<char>, bool)>,
    pub scripts: Seq<Seq<Seq<char>>>,
    pub common: Seq<Seq<char>>,
    pub forbidden: Seq<Seq<char>>,
    pub mono_ids: Seq<u64>,
    pub word_chars: usize,
}

/// Names as values.
pub open spec fn names(v: Seq<String>) -> Seq<Seq<char>> {
    v.map_values(|s: String| s@)
}

impl View for FallbackQuery {
    type V = QueryView;

    open spec fn view(&self) -> QueryView {
        QueryView {
            faces: self.faces@.map_values(|f: FallbackFace| f@),
            defaults: self.default_families@.map_values(|d: DefaultFamily| (d.name@, d.monospace)),
            scripts: self.script_families@.map_values(|v: Vec<String>| names(v@)),
            common: names(self.common_fallback@),
            forbidden: names(self.forbidden_fallback@),
            mono_ids: self.monospace_ids@,
            word_chars: self.word_chars,
        }
    }
}

/// A search as the fonts give it: no font supports more characters than the word
/// has, and the monospace ids are sorted.
pub open spec fn query_wf(q: QueryView) -> bool {
    &&& forall|k: int| 0 <= k < q.faces.len() ==> match (#[trigger] q.faces[k]).supported {
        Some(s) => s <= q.word_chars,
        None => true,
    }
    &&& forall|i: int, j: int| 0 <= i < j < q.mono_ids.len() ==> q.mono_ids[i] < q.mono_ids[j]
}

/// A monospace font waiting to be tried, ranked by how far its weight is from the
/// asked one (the default family's font first), then by how many characters of the
/// word it lacks, then by its weight, then by its id.
#[derive(Clone, Copy, Debug, PartialEq, Eq, Structural)]
pub struct MonospaceFallbackInfo {
    pub font_weight_diff: Option<u16>,
    pub codepoint_non_matches: Option<usize>,
    pub font_weight: u16,
    pub id: u64,
}

/// `None` ranks before every `Some`.
pub open spec fn opt_rank(o: Option<int>) -> int {
    match o {
        Some(x) => x + 1,
        None => 0,
    }
}

/// The ranking of waiting monospace fonts.
pub open spec fn info_lt(a: MonospaceFallbackInfo, b: MonospaceFallbackInfo) -> bool {
    let ad = opt_rank(match a.font_weight_diff { Some(x) => Some(x as int), None => None });
    let bd = opt_rank(match b.font_weight_diff { Some(x) => Some(x as int), None => None });
    let an = opt_rank(match a.codepoint_non_matches { Some(x) => Some(x as int), None => None });
    let bn = opt_rank(match b.codepoint_non_matches { Some(x) => Some(x as int), None => None });
    ||| ad < bd
    ||| ad == bd && an < bn
    ||| ad == bd && an == bn && a.font_weight < b.font_weight
    ||| ad == bd && an == bn && a.font_weight == b.font_weight && a.id < b.id
}

/// Adding a font to the waiting ones, kept in rank order: the waiting fonts with the
/// font in its place, and whether it was already there (then nothing changes).
pub open spec fn insert_info(buf: Seq<MonospaceFallbackInfo>, x: MonospaceFallbackInfo) -> (Seq<MonospaceFallbackInfo>, bool)
    decreases buf.len(),
{
    if buf.len() == 0 {
        (seq![x], false)
    } else if info_lt(buf[0], x) {
        let r = insert_info(buf.drop_first(), x);
        (seq![buf[0]] + r.0, r.1)
    } else if buf[0] == x {
        (buf, true)
    } else {
        (seq![x] + buf, false)
    }
}

/// A font with this id loads.
pub open spec fn loads(faces: Seq<FaceView>, id: u64) -> bool {
    exists|k: int| 0 <= k < faces.len() && (#[trigger] faces[k]).id == id && faces[k].supported is Some
}

/// The font that stands for a family asked for: the first with the asked weight whose
/// families include the family's name.
pub open spec fn default_key(faces: Seq<FaceView>, name: Seq<char>) -> Option<FaceView>
    decreases faces.len(),
{
    if faces.len() == 0 {
        None
    } else if faces[0].font_weight_diff == 0 && faces[0].families.contains(name) {
        Some(faces[0])
    } else {
        default_key(faces.drop_first(), name)
    }
}

/// The first font of a family that loads.
pub open spec fn first_of_family(faces: Seq<FaceView>, all: Seq<FaceView>, name: Seq<char>) -> Option<u64>
    decreases faces.len(),
{
    if faces.len() == 0 {
        None
    } else if faces[0].families.contains(name) && loads(all, faces[0].id) {
        Some(faces[0].id)
    } else {
        first_of_family(faces.drop_first(), all, name)
    }
}

/// Whether a font counts as monospace for the word: by the script ids where there
/// are any, else by the font itself.
pub open spec fn is_mono_id(f: FaceView, ids: Seq<u64>) -> bool {
    if ids.len() == 0 {
        f.monospace
    } else {
        ids.contains(f.id)
    }
}

/// The waiting entry of a monospace font that lacks `wc - s` characters of the word.
pub open spec fn mono_info(f: FaceView, wc: usize, s: usize) -> MonospaceFallbackInfo {
    MonospaceFallbackInfo {
        font_weight_diff: Some(f.font_weight_diff),
        codepoint_non_matches: Some((wc - s) as usize),
        font_weight: f.font_weight,
        id: f.id,
    }
}

/// Every loading monospace font other than the default one, added to the waiting
/// ones in order, and whether any was already there.
pub open spec fn mono_inserts(
    faces: Seq<FaceView>,
    skip: Option<u64>,
    ids: Seq<u64>,
    wc: usize,
    buf: Seq<MonospaceFallbackInfo>,
) -> (Seq<MonospaceFallbackInfo>, bool)
    decreases faces.len(),
{
    if faces.len() == 0 {
        (buf, false)
    } else {
        let f = faces[0];
        let step = if skip != Some(f.id) && is_mono_id(f, ids) && f.supported is Some {
            insert_info(buf, mono_info(f, wc, f.supported->0))
        } else {
            (buf, false)
        };
        let rest = mono_inserts(faces.drop_first(), skip, ids, wc, step.0);
        (rest.0, step.1 || rest.1)
    }
}

/// One round for the monospace default family: its own font where it covers the whole
/// word, else the monospace fonts join the waiting ones and the best of them is
/// tried. The font found, the waiting fonts after, and whether a font was added twice.
pub open spec fn mono_round(q: QueryView, buf: Seq<MonospaceFallbackInfo>, dkey: Option<FaceView>) -> (
    Option<u64>,
    Seq<MonospaceFallbackInfo>,
    bool,
) {
    let wc = q.word_chars;
    let first: (bool, Seq<MonospaceFallbackInfo>, bool) = match dkey {
        Some(k) => match k.supported {
            Some(s) => if wc - s == 0 {
                (loads(q.faces, k.id), buf, false)
            } else {
                let r = insert_info(
                    buf,
                    MonospaceFallbackInfo {
                        font_weight_diff: None,
                        codepoint_non_matches: Some((wc - s) as usize),
                        font_weight: k.font_weight,
                        id: k.id,
                    },
                );
                (false, r.0, r.1)
            },
            None => (false, buf, false),
        },
        None => (false, buf, false),
    };
    if first.0 {
        (Some(dkey->0.id), buf, false)
    } else {
        let ids = if q.scripts.len() > 0 {
            q.mono_ids
        } else {
            Seq::empty()
        };
        let skip = match dkey {
            Some(k) => Some(k.id),
            None => None,
        };
        let ins = mono_inserts(q.faces, skip, ids, wc, first.1);
        let col = first.2 || ins.1;
        if ins.0.len() > 0 {
            let id = ins.0[0].id;
            (if loads(q.faces, id) {
                Some(id)
            } else {
                None
            }, ins.0.drop_first(), col)
        } else {
            (None, ins.0, col)
        }
    }
}

/// How far a search has got.
pub struct IterState {
    pub default_i: nat,
    pub script_i: nat,
    pub script_j: nat,
    pub common_i: nat,
    pub other_i: nat,
    pub end: bool,
    pub mono: Seq<MonospaceFallbackInfo>,
}

/// The families asked for, from where the search stands: the font found, the state
/// after, and whether a font joined the waiting ones twice.
pub open spec fn default_phase(q: QueryView, st: IterState) -> (Option<u64>, IterState, bool)
    decreases q.defaults.len() - st.default_i,
{
    if st.default_i >= q.defaults.len() {
        (None, st, false)
    } else {
        let d = q.defaults[st.default_i as int];
        let st1 = IterState { default_i: st.default_i + 1, ..st };
        let dkey = default_key(q.faces, d.0);
        if !d.1 {
            match dkey {
                Some(k) => (if loads(q.faces, k.id) {
                    Some(k.id)
                } else {
                    None
                }, st1, false),
                None => (None, st1, false),
            }
        } else {
            let r = mono_round(q, st1.mono, dkey);
            let st2 = IterState { mono: r.1, ..st1 };
            if r.0 is Some {
                (r.0, st2, r.2)
            } else {
                let rest = default_phase(q, st2);
                (rest.0, rest.1, r.2 || rest.2)
            }
        }
    }
}

/// The fallback families of the word's scripts, from where the search stands.
pub open spec fn script_phase(q: QueryView, st: IterState) -> (Option<u64>, IterState)
    decreases q.scripts.len() - st.script_i, q.scripts[st.script_i as int].len() - st.script_j,
{
    if st.script_i >= q.scripts.len() {
        (None, st)
    } else if st.script_j < q.scripts[st.script_i as int].len() {
        let st1 = IterState { script_j: st.script_j + 1, ..st };
        match first_of_family(q.faces, q.faces, q.scripts[st.script_i as int][st.script_j as int]) {
            Some(id) => (Some(id), st1),
            None => script_phase(q, st1),
        }
    } else {
        script_phase(q, IterState { script_i: st.script_i + 1, script_j: 0, ..st })
    }
}

/// The common fallback families, from where the search stands.
pub open spec fn common_phase(q: QueryView, st: IterState) -> (Option<u64>, IterState)
    decreases q.common.len() - st.common_i,
{
    if st.common_i >= q.common.len() {
        (None, st)
    } else {
        let st1 = IterState { common_i: st.common_i + 1, ..st };
        match first_of_family(q.faces, q.faces, q.common[st.common_i as int]) {
            Some(id) => (Some(id), st1),
            None => common_phase(q, st1),
        }
    }
}

/// A font is allowed where none of its families is forbidden.
pub open spec fn allowed(f: FaceView, forbidden: Seq<Seq<char>>) -> bool {
    forall|i: int| 0 <= i < forbidden.len() ==> !f.families.contains(#[trigger] forbidden[i])
}

/// Any other font that is allowed and loads, from where the search stands.
pub open spec fn other_phase(q: QueryView, st: IterState) -> (Option<u64>, IterState)
    decreases q.faces.len() - st.other_i,
{
    if st.other_i >= q.faces.len() {
        (None, st)
    } else {
        let f = q.faces[st.other_i as int];
        let st1 = IterState { other_i: st.other_i + 1, ..st };
        if allowed(f, q.forbidden) && loads(q.faces, f.id) {
            (Some(f.id), st1)
        } else {
            other_phase(q, st1)
        }
    }
}

/// The next font of a search: a waiting monospace font first, then the phases in
/// order; where all are done the search ends. The font found, the state after, and
/// whether a font joined the waiting ones twice.
pub open spec fn spec_next(q: QueryView, st: IterState) -> (Option<u64>, IterState, bool) {
    let p0: (Option<u64>, IterState) = if st.mono.len() > 0 {
        let id = st.mono[0].id;
        (if loads(q.faces, id) {
            Some(id)
        } else {
            None
        }, IterState { mono: st.mono.drop_first(), ..st })
    } else {
        (None, st)
    };
    if p0.0 is Some {
        (p0.0, p0.1, false)
    } else {
        let p1 = default_phase(q, p0.1);
        if p1.0 is Some {
            p1
        } else {
            let p2 = script_phase(q, p1.1);
            if p2.0 is Some {
                (p2.0, p2.1, p1.2)
            } else {
                let p3 = common_phase(q, p2.1);
                if p3.0 is Some {
                    (p3.0, p3.1, p1.2)
                } else {
                    let p4 = other_phase(q, p3.1);
                    if p4.0 is Some {
                        (p4.0, p4.1, p1.2)
                    } else {
                        (None, IterState { end: true, ..p4.1 }, p1.2)
                    }
                }
            }
        }
    }
}

/// A font found by family loads.
proof fn lemma_first_of_family_loads(faces: Seq<FaceView>, all: Seq<FaceView>, name: Seq<char>)
    ensures
        first_of_family(faces, all, name) matches Some(id) ==> loads(all, id),
    decreases faces.len(),
{
    if faces.len() > 0 {
        lemma_first_of_family_loads(faces.drop_first(), all, name);
    }
}

/// A font found in a monospace round loads.
proof fn lemma_mono_round_loads(q: QueryView, buf: Seq<MonospaceFallbackInfo>, dkey: Option<FaceView>)
    ensures
        mono_round(q, buf, dkey).0 matches Some(id) ==> loads(q.faces, id),
{
}

/// A font found among the families asked for loads.
proof fn lemma_default_phase_loads(q: QueryView, st: IterState)
    ensures
        default_phase(q, st).0 matches Some(id) ==> loads(q.faces, id),
    decreases q.defaults.len() - st.default_i,
{
    if st.default_i < q.defaults.len() {
        let d = q.defaults[st.default_i as int];
        let st1 = IterState { default_i: st.default_i + 1, ..st };
        if d.1 {
            let r = mono_round(q, st1.mono, default_key(q.faces, d.0));
            lemma_mono_round_loads(q, st1.mono, default_key(q.faces, d.0));
            lemma_default_phase_loads(q, IterState { mono: r.1, ..st1 });
        }
    }
}

/// A font found among the families of the word's scripts loads.
proof fn lemma_script_phase_loads(q: QueryView, st: IterState)
    ensures
        script_phase(q, st).0 matches Some(id) ==> loads(q.faces, id),
    decreases q.scripts.len() - st.script_i, q.scripts[st.script_i as int].len() - st.script_j,
{
    if st.script_i < q.scripts.len() {
        if st.script_j < q.scripts[st.script_i as int].len() {
            lemma_first_of_family_loads(q.faces, q.faces, q.scripts[st.script_i as int][st.script_j as int]);
            lemma_script_phase_loads(q, IterState { script_j: st.script_j + 1, ..st });
        } else {
            lemma_script_phase_loads(q, IterState { script_i: st.script_i + 1, script_j: 0, ..st });
        }
    }
}

/// A font found among the common fallback families loads.
proof fn lemma_common_phase_loads(q: QueryView, st: IterState)
    ensures
        common_phase(q, st).0 matches Some(id) ==> loads(q.faces, id),
    decreases q.common.len() - st.common_i,
{
    if st.common_i < q.common.len() {
        lemma_first_of_family_loads(q.faces, q.faces, q.common[st.common_i as int]);
        lemma_common_phase_loads(q, IterState { common_i: st.common_i + 1, ..st });
    }
}

/// A font found among the others loads.
proof fn lemma_other_phase_loads(q: QueryView, st: IterState)
    ensures
        other_phase(q, st).0 matches Some(id) ==> loads(q.faces, id),
    decreases q.faces.len() - st.other_i,
{
    if st.other_i < q.faces.len() {
        lemma_other_phase_loads(q, IterState { other_i: st.other_i + 1, ..st });
    }
}

/// Every font the search hands out is one of the matched fonts, and one that loads.
pub proof fn lemma_next_item_loads(q: QueryView, st: IterState)
    ensures
        spec_next(q, st).0 matches Some(id) ==> loads(q.faces, id),
{
    let p0: (Option<u64>, IterState) = if st.mono.len() > 0 {
        (None, IterState { mono: st.mono.drop_first(), ..st })
    } else {
        (None, st)
    };
    lemma_default_phase_loads(q, p0.1);
    let p1 = default_phase(q, p0.1);
    lemma_script_phase_loads(q, p1.1);
    let p2 = script_phase(q, p1.1);
    lemma_common_phase_loads(q, p2.1);
    let p3 = common_phase(q, p2.1);
    lemma_other_phase_loads(q, p3.1);
}

/// Waiting fonts in strict rank order.
pub open spec fn ranked(s: Seq<MonospaceFallbackInfo>) -> bool {
    forall|i: int, j: int| 0 <= i < j < s.len() ==> info_lt(#[trigger] s[i], #[trigger] s[j])
}

/// The ranking is a strict total order.
proof fn lemma_info_order(a: MonospaceFallbackInfo, b: MonospaceFallbackInfo, c: MonospaceFallbackInfo)
    ensures
        !info_lt(a, a),
        info_lt(a, b) ==> !info_lt(b, a),
        a != b ==> info_lt(a, b) || info_lt(b, a),
        info_lt(a, b) && info_lt(b, c) ==> info_lt(a, c),
{
}

/// Adding a font keeps the waiting fonts in rank order.
proof fn lemma_insert_ranked(buf: Seq<MonospaceFallbackInfo>, x: MonospaceFallbackInfo)
    requires
        ranked(buf),
    ensures
        ranked(insert_info(buf, x).0),
        insert_info(buf, x).0.len() > 0,
        forall|i: int| 0 <= i < insert_info(buf, x).0.len() ==> (#[trigger] insert_info(buf, x).0[i] == x
            || buf.contains(insert_info(buf, x).0[i])),
    decreases buf.len(),
{
    if buf.len() > 0 {
        let r = buf.drop_first();
        assert(ranked(r)) by {
            assert forall|i: int, j: int| 0 <= i < j < r.len() implies info_lt(#[trigger] r[i], #[trigger] r[j]) by {
                assert(r[i] == buf[i + 1] && r[j] == buf[j + 1]);
            }
        }
        if info_lt(buf[0], x) {
            lemma_insert_ranked(r, x);
            let t = insert_info(r, x).0;
            let res = seq![buf[0]] + t;
            assert forall|i: int| 0 <= i < res.len() implies (#[trigger] res[i] == x || buf.contains(res[i])) by {
                if i == 0 {
                    assert(buf[0] == res[0]);
                } else {
                    assert(res[i] == t[i - 1]);
                    if t[i - 1] != x {
                        let k = choose|k: int| 0 <= k < r.len() && r[k] == t[i - 1];
                        assert(buf[k + 1] == r[k]);
                    }
                }
            }
            assert forall|i: int, j: int| 0 <= i < j < res.len() implies info_lt(#[trigger] res[i], #[trigger] res[j]) by {
                if i == 0 {
                    assert(res[j] == t[j - 1]);
                    if t[j - 1] == x {
                    } else {
                        let k = choose|k: int| 0 <= k < r.len() && r[k] == t[j - 1];
                        assert(buf[k + 1] == r[k]);
                        assert(info_lt(buf[0], buf[k + 1]));
                    }
                } else {
                    assert(res[i] == t[i - 1] && res[j] == t[j - 1]);
                }
            }
        } else if buf[0] == x {
            assert forall|i: int| 0 <= i < buf.len() implies (#[trigger] buf[i] == x || buf.contains(buf[i])) by {
            }
        } else {
            let res = seq![x] + buf;
            lemma_info_order(buf[0], x, x);
            assert(info_lt(x, buf[0]));
            assert forall|i: int| 0 <= i < res.len() implies (#[trigger] res[i] == x || buf.contains(res[i])) by {
                if i > 0 {
                    assert(res[i] == buf[i - 1]);
                }
            }
            assert forall|i: int, j: int| 0 <= i < j < res.len() implies info_lt(#[trigger] res[i], #[trigger] res[j]) by {
                if i == 0 {
                    assert(res[j] == buf[j - 1]);
                    if j - 1 > 0 {
                        lemma_info_order(x, buf[0], buf[j - 1]);
                    }
                } else {
                    assert(res[i] == buf[i - 1] && res[j] == buf[j - 1]);
                }
            }
        }
    }
}

/// Dropping the first waiting font keeps the rest in rank order.
proof fn lemma_drop_first_ranked(s: Seq<MonospaceFallbackInfo>)
    requires
        ranked(s),
        s.len() > 0,
    ensures
        ranked(s.drop_first()),
{
    let r = s.drop_first();
    assert forall|i: int, j: int| 0 <= i < j < r.len() implies info_lt(#[trigger] r[i], #[trigger] r[j]) by {
        assert(r[i] == s[i + 1] && r[j] == s[j + 1]);
    }
}

/// Adding the monospace fonts keeps the waiting fonts in rank order.
proof fn lemma_mono_inserts_ranked(
    faces: Seq<FaceView>,
    skip: Option<u64>,
    ids: Seq<u64>,
    wc: usize,
    buf: Seq<MonospaceFallbackInfo>,
)
    requires
        ranked(buf),
    ensures
        ranked(mono_inserts(faces, skip, ids, wc, buf).0),
    decreases faces.len(),
{
    if faces.len() > 0 {
        let f = faces[0];
        if skip != Some(f.id) && is_mono_id(f, ids) && f.supported is Some {
            lemma_insert_ranked(buf, mono_info(f, wc, f.supported->0));
            lemma_mono_inserts_ranked(faces.drop_first(), skip, ids, wc, insert_info(buf, mono_info(f, wc, f.supported->0)).0);
        } else {
            lemma_mono_inserts_ranked(faces.drop_first(), skip, ids, wc, buf);
        }
    }
}

/// A monospace round keeps the waiting fonts in rank order.
proof fn lemma_mono_round_ranked(q: QueryView, buf: Seq<MonospaceFallbackInfo>, dkey: Option<FaceView>)
    requires
        ranked(buf),
    ensures
        ranked(mono_round(q, buf, dkey).1),
{
    let wc = q.word_chars;
    let b0 = match dkey {
        Some(k) => match k.supported {
            Some(s) => if wc - s == 0 {
                buf
            } else {
                insert_info(
                    buf,
                    MonospaceFallbackInfo {
                        font_weight_diff: None,
                        codepoint_non_matches: Some((wc - s) as usize),
                        font_weight: k.font_weight,
                        id: k.id,
                    },
                ).0
            },
            None => buf,
        },
        None => buf,
    };
    match dkey {
        Some(k) => match k.supported {
            Some(s) => if wc - s != 0 {
                lemma_insert_ranked(
                    buf,
                    MonospaceFallbackInfo {
                        font_weight_diff: None,
                        codepoint_non_matches: Some((wc - s) as usize),
                        font_weight: k.font_weight,
                        id: k.id,
                    },
                );
            },
            None => {},
        },
        None => {},
    }
    let ids = if q.scripts.len() > 0 {
        q.mono_ids
    } else {
        Seq::empty()
    };
    let skip = match dkey {
        Some(k) => Some(k.id),
        None => None,
    };
    lemma_mono_inserts_ranked(q.faces, skip, ids, wc, b0);
    let ins = mono_inserts(q.faces, skip, ids, wc, b0);
    if ins.0.len() > 0 {
        lemma_drop_first_ranked(ins.0);
    }
}

/// The families asked for keep the waiting fonts in rank order.
proof fn lemma_default_phase_ranked(q: QueryView, st: IterState)
    requires
        ranked(st.mono),
    ensures
        ranked(default_phase(q, st).1.mono),
    decreases q.defaults.len() - st.default_i,
{
    if st.default_i < q.defaults.len() {
        let d = q.defaults[st.default_i as int];
        let st1 = IterState { default_i: st.default_i + 1, ..st };
        if d.1 {
            let r = mono_round(q, st1.mono, default_key(q.faces, d.0));
            lemma_mono_round_ranked(q, st1.mono, default_key(q.faces, d.0));
            lemma_default_phase_ranked(q, IterState { mono: r.1, ..st1 });
        }
    }
}

/// The script families leave the waiting fonts alone.
proof fn lemma_script_keeps_waiting(q: QueryView, st: IterState)
    ensures
        script_phase(q, st).1.mono == st.mono,
    decreases q.scripts.len() - st.script_i, q.scripts[st.script_i as int].len() - st.script_j,
{
    if st.script_i < q.scripts.len() {
        if st.script_j < q.scripts[st.script_i as int].len() {
            lemma_script_keeps_waiting(q, IterState { script_j: st.script_j + 1, ..st });
        } else {
            lemma_script_keeps_waiting(q, IterState { script_i: st.script_i + 1, script_j: 0, ..st });
        }
    }
}

/// The common families leave the waiting fonts alone.
proof fn lemma_common_keeps_waiting(q: QueryView, st: IterState)
    ensures
        common_phase(q, st).1.mono == st.mono,
    decreases q.common.len() - st.common_i,
{
    if st.common_i < q.common.len() {
        lemma_common_keeps_waiting(q, IterState { common_i: st.common_i + 1, ..st });
    }
}

/// The other fonts leave the waiting fonts alone.
proof fn lemma_other_keeps_waiting(q: QueryView, st: IterState)
    ensures
        other_phase(q, st).1.mono == st.mono,
    decreases q.faces.len() - st.other_i,
{
    if st.other_i < q.faces.len() {
        lemma_other_keeps_waiting(q, IterState { other_i: st.other_i + 1, ..st });
    }
}

/// The waiting monospace fonts stay in rank order from one font to the next, so the
/// one tried first is always the best ranked.
pub proof fn lemma_waiting_fonts_stay_ranked(q: QueryView, st: IterState)
    requires
        ranked(st.mono),
    ensures
        ranked(spec_next(q, st).1.mono),
{
    let p0: IterState = if st.mono.len() > 0 {
        lemma_drop_first_ranked(st.mono);
        IterState { mono: st.mono.drop_first(), ..st }
    } else {
        st
    };
    lemma_default_phase_ranked(q, p0);
    let p1 = default_phase(q, p0);
    lemma_script_keeps_waiting(q, p1.1);
    let p2 = script_phase(q, p1.1);
    lemma_common_keeps_waiting(q, p2.1);
    let p3 = common_phase(q, p2.1);
    lemma_other_keeps_waiting(q, p3.1);
}

/// The ranking of waiting monospace fonts, computed.
fn info_less(a: &MonospaceFallbackInfo, b: &MonospaceFallbackInfo) -> (r: bool)
    ensures
        r == info_lt(*a, *b),
{
    let ad: u32 = match a.font_weight_diff {
        Some(x) => x as u32 + 1,
        None => 0,
    };
    let bd: u32 = match b.font_weight_diff {
        Some(x) => x as u32 + 1,
        None => 0,
    };
    let an: u128 = match a.codepoint_non_matches {
        Some(x) => x as u128 + 1,
        None => 0,
    };
    let bn: u128 = match b.codepoint_non_matches {
        Some(x) => x as u128 + 1,
        None => 0,
    };
    if ad != bd {
        ad < bd
    } else if an != bn {
        an < bn
    } else if a.font_weight != b.font_weight {
        a.font_weight < b.font_weight
    } else {
        a.id < b.id
    }
}

/// The waiting fonts before `i` all rank before `x`: adding `x` keeps them and adds
/// it among the rest.
proof fn lemma_insert_info_skip(buf: Seq<MonospaceFallbackInfo>, x: MonospaceFallbackInfo, i: int)
    requires
        0 <= i <= buf.len(),
        forall|j: int| 0 <= j < i ==> info_lt(#[trigger] buf[j], x),
    ensures
        insert_info(buf, x) == (buf.take(i) + insert_info(buf.skip(i), x).0, insert_info(buf.skip(i), x).1),
    decreases i,
{
    if i == 0 {
        assert(buf.skip(0) =~= buf);
        assert(buf.take(0) + insert_info(buf, x).0 =~= insert_info(buf, x).0);
    } else {
        let r = buf.drop_first();
        assert forall|j: int| 0 <= j < i - 1 implies info_lt(#[trigger] r[j], x) by {
            assert(r[j] == buf[j + 1]);
        }
        lemma_insert_info_skip(r, x, i - 1);
        assert(r.skip(i - 1) =~= buf.skip(i));
        assert(info_lt(buf[0], x));
        assert(seq![buf[0]] + (r.take(i - 1) + insert_info(r.skip(i - 1), x).0) =~= buf.take(i) + insert_info(
            buf.skip(i),
            x,
        ).0);
    }
}

/// Adds a font to the waiting ones in rank order; false where it was already there.
fn insert_waiting(buf: &mut Vec<MonospaceFallbackInfo>, x: MonospaceFallbackInfo) -> (added: bool)
    ensures
        (final(buf)@, !added) == insert_info(old(buf)@, x),
{
    let mut i: usize = 0;
    while i < buf.len() && info_less(&buf[i], &x)
        invariant
            i <= buf@.len(),
            buf@ == old(buf)@,
            forall|j: int| 0 <= j < i ==> info_lt(#[trigger] buf@[j], x),
        decreases buf@.len() - i,
    {
        i = i + 1;
    }
    proof {
        lemma_insert_info_skip(buf@, x, i as int);
        let rest = buf@.skip(i as int);
        if i < buf@.len() {
            assert(rest[0] == buf@[i as int]);
            assert(rest.drop_first() =~= buf@.skip(i + 1));
        }
    }
    if i < buf.len() && buf[i] == x {
        proof {
            assert(buf@.take(i as int) + buf@.skip(i as int) =~= buf@);
        }
        return false;
    }
    buf.insert(i, x);
    proof {
        assert(buf@ =~= old(buf)@.take(i as int) + insert_info(old(buf)@.skip(i as int), x).0);
    }
    true
}

/// Whether a font's families include `name`.
fn has_family(families: &Vec<String>, name: &str) -> (r: bool)
    ensures
        r == names(families@).contains(name@),
{
    let mut i: usize = 0;
    while i < families.len()
        invariant
            i <= families@.len(),
            forall|j: int| 0 <= j < i ==> names(families@)[j] != name@,
        decreases families@.len() - i,
    {
        if str_eq(families[i].as_str(), name) {
            proof {
                assert(names(families@)[i as int] == name@);
            }
            return true;
        }
        i = i + 1;
    }
    false
}

/// The fonts of a search, as values.
pub open spec fn face_views(faces: Seq<FallbackFace>) -> Seq<FaceView> {
    faces.map_values(|f: FallbackFace| f@)
}

/// Whether a font with this id loads.
fn face_loads(faces: &Vec<FallbackFace>, id: u64) -> (r: bool)
    ensures
        r == loads(face_views(faces@), id),
{
    let ghost fv = face_views(faces@);
    let mut i: usize = 0;
    while i < faces.len()
        invariant
            i <= faces@.len(),
            fv == face_views(faces@),
            forall|j: int| 0 <= j < i ==> !((#[trigger] fv[j]).id == id && fv[j].supported is Some),
        decreases faces@.len() - i,
    {
        proof {
            assert(fv[i as int] == faces@[i as int]@);
        }
        if faces[i].id == id && faces[i].supported.is_some() {
            return true;
        }
        i = i + 1;
    }
    false
}

/// The font that stands for a family asked for, by its place among the fonts.
fn find_default_key(faces: &Vec<FallbackFace>, name: &str) -> (r: Option<usize>)
    ensures
        match r {
            Some(k) => k < faces@.len() && default_key(face_views(faces@), name@) == Some(faces@[k as int]@),
            None => default_key(face_views(faces@), name@) is None,
        },
{
    let ghost fv = face_views(faces@);
    let mut i: usize = 0;
    proof {
        assert(fv.skip(0) =~= fv);
    }
    while i < faces.len()
        invariant
            i <= faces@.len(),
            fv == face_views(faces@),
            default_key(fv.skip(i as int), name@) == default_key(fv, name@),
        decreases faces@.len() - i,
    {
        proof {
            assert(fv.skip(i as int)[0] == faces@[i as int]@);
            assert(fv.skip(i as int).drop_first() =~= fv.skip(i + 1));
        }
        if faces[i].font_weight_diff == 0 && has_family(&faces[i].families, name) {
            return Some(i);
        }
        i = i + 1;
    }
    proof {
        assert(fv.skip(i as int).len() == 0);
    }
    None
}

/// The first font of a family that loads.
fn first_font_of_family(faces: &Vec<FallbackFace>, name: &str) -> (r: Option<u64>)
    ensures
        r == first_of_family(face_views(faces@), face_views(faces@), name@),
{
    let ghost fv = face_views(faces@);
    let mut i: usize = 0;
    proof {
        assert(fv.skip(0) =~= fv);
    }
    while i < faces.len()
        invariant
            i <= faces@.len(),
            fv == face_views(faces@),
            first_of_family(fv.skip(i as int), fv, name@) == first_of_family(fv, fv, name@),
        decreases faces@.len() - i,
    {
        proof {
            assert(fv.skip(i as int)[0] == faces@[i as int]@);
            assert(fv.skip(i as int).drop_first() =~= fv.skip(i + 1));
        }
        if has_family(&faces[i].families, name) && face_loads(faces, faces[i].id) {
            return Some(faces[i].id);
        }
        i = i + 1;
    }
    proof {
        assert(fv.skip(i as int).len() == 0);
    }
    None
}

/// Whether `id` is among `ids`.
fn contains_id(ids: &Vec<u64>, id: u64) -> (r: bool)
    ensures
        r == ids@.contains(id),
{
    let mut i: usize = 0;
    while i < ids.len()
        invariant
            i <= ids@.len(),
            forall|j: int| 0 <= j < i ==> ids@[j] != id,
        decreases ids@.len() - i,
    {
        if ids[i] == id {
            return true;
        }
        i = i + 1;
    }
    false
}

/// Whether none of a font's families is forbidden.
fn is_allowed(f: &FallbackFace, forbidden: &Vec<String>) -> (r: bool)
    ensures
        r == allowed(f@, names(forbidden@)),
{
    let mut i: usize = 0;
    while i < forbidden.len()
        invariant
            i <= forbidden@.len(),
            forall|j: int| 0 <= j < i ==> !f@.families.contains(#[trigger] names(forbidden@)[j]),
        decreases forbidden@.len() - i,
    {
        if has_family(&f.families, forbidden[i].as_str()) {
            proof {
                assert(names(forbidden@)[i as int] == forbidden@[i as int]@);
                assert(f@.families == names(f.families@));
            }
            return false;
        }
        i = i + 1;
    }
    true
}

/// The font at a place among the fonts, as a value.
pub open spec fn key_view(faces: Seq<FallbackFace>, k: Option<usize>) -> Option<FaceView> {
    match k {
        Some(i) => Some(faces[i as int]@),
        None => None,
    }
}

/// One round for the monospace default family, on the waiting fonts in `buf`.
fn monospace_round(q: &FallbackQuery, buf: &mut Vec<MonospaceFallbackInfo>, dkey: Option<usize>) -> (r: Option<u64>)
    requires
        query_wf(q@),
        dkey matches Some(k) ==> k < q.faces@.len(),
    ensures
        r == mono_round(q@, old(buf)@, key_view(q.faces@, dkey)).0,
        final(buf)@ == mono_round(q@, old(buf)@, key_view(q.faces@, dkey)).1,
{
    let ghost qv = q@;
    let ghost fv = qv.faces;
    let wc = q.word_chars;
    let mut skip: Option<u64> = None;
    match dkey {
        Some(k) => {
            let f = &q.faces[k];
            proof {
                assert(fv[k as int] == q.faces@[k as int]@);
            }
            skip = Some(f.id);
            match f.supported {
                Some(s) => {
                    if wc - s == 0 {
                        if face_loads(&q.faces, f.id) {
                            return Some(f.id);
                        }
                    } else {
                        insert_waiting(
                            buf,
                            MonospaceFallbackInfo {
                                font_weight_diff: None,
                                codepoint_non_matches: Some(wc - s),
                                font_weight: f.font_weight,
                                id: f.id,
                            },
                        );
                    }
                },
                None => {},
            }
        },
        None => {},
    }
    let ghost buf0 = buf@;
    let use_ids = q.script_families.len() > 0;
    let ghost ids = if qv.scripts.len() > 0 {
        qv.mono_ids
    } else {
        Seq::<u64>::empty()
    };
    let mut i: usize = 0;
    proof {
        assert(fv.skip(0) =~= fv);
    }
    while i < q.faces.len()
        invariant
            i <= q.faces@.len(),
            qv == q@,
            fv == qv.faces,
            query_wf(qv),
            wc == qv.word_chars,
            use_ids == (qv.scripts.len() > 0),
            ids == (if qv.scripts.len() > 0 {
                qv.mono_ids
            } else {
                Seq::<u64>::empty()
            }),
            skip == (match dkey {
                Some(k) => Some(fv[k as int].id),
                None => None::<u64>,
            }),
            mono_inserts(fv.skip(i as int), skip, ids, wc, buf@).0 == mono_inserts(fv, skip, ids, wc, buf0).0,
        decreases q.faces@.len() - i,
    {
        let f = &q.faces[i];
        proof {
            assert(fv.skip(i as int)[0] == f@);
            assert(fv.skip(i as int).drop_first() =~= fv.skip(i + 1));
            assert(fv[i as int] == f@);
        }
        proof {
            assert(qv.faces[i as int].supported == f.supported);
        }
        let is_mono_id = if !use_ids || q.monospace_ids.len() == 0 {
            f.monospace
        } else {
            contains_id(&q.monospace_ids, f.id)
        };
        if skip != Some(f.id) && is_mono_id {
            match f.supported {
                Some(s) => {
                    insert_waiting(buf, MonospaceFallbackInfo {
                        font_weight_diff: Some(f.font_weight_diff),
                        codepoint_non_matches: Some(wc - s),
                        font_weight: f.font_weight,
                        id: f.id,
                    });
                },
                None => {},
            }
        }
        i = i + 1;
    }
    proof {
        assert(fv.skip(i as int).len() == 0);
    }
    if buf.len() > 0 {
        let info = buf.remove(0);
        proof {
            assert(buf@ =~= mono_inserts(fv, skip, ids, wc, buf0).0.drop_first());
        }
        if face_loads(&q.faces, info.id) {
            return Some(info.id);
        }
        return None;
    }
    None
}

/// A search for a font to draw a word with
pub struct FontFallbackIter {
    default_i: usize,
    script_i: (usize, usize),
    common_i: usize,
    other_i: usize,
    end: bool,
    monospace_fallbacks: Vec<MonospaceFallbackInfo>,
}

impl FontFallbackIter {
    /// How far the search has got.
    pub closed spec fn state(&self) -> IterState {
        IterState {
            default_i: self.default_i as nat,
            script_i: self.script_i.0 as nat,
            script_j: self.script_i.1 as nat,
            common_i: self.common_i as nat,
            other_i: self.other_i as nat,
            end: self.end,
            mono: self.monospace_fallbacks@,
        }
    }

    /// A search that has not started.
    pub fn new() -> (it: Self)
        ensures
            it.state() == (IterState {
                default_i: 0,
                script_i: 0,
                script_j: 0,
                common_i: 0,
                other_i: 0,
                end: false,
                mono: Seq::empty(),
            }),
    {
        Self {
            default_i: 0,
            script_i: (0, 0),
            common_i: 0,
            other_i: 0,
            end: false,
            monospace_fallbacks: Vec::new(),
        }
    }

    /// Whether the search has run out of fonts.
    pub fn end(&self) -> (e: bool)
        ensures
            e == self.state().end,
    {
        self.end
    }

    /// The families asked for.
    fn default_round(&mut self, q: &FallbackQuery) -> (r: Option<u64>)
        requires
            query_wf(q@),
        ensures
            r == default_phase(q@, old(self).state()).0,
            final(self).state() == default_phase(q@, old(self).state()).1,
    {
        let ghost start = self.state();
        while self.default_i < q.default_families.len()
            invariant
                query_wf(q@),
                start == old(self).state(),
                default_phase(q@, self.state()).0 == default_phase(q@, start).0,
                default_phase(q@, self.state()).1 == default_phase(q@, start).1,
            decreases q.default_families@.len() - self.default_i,
        {
            let ghost cur = self.state();
            let d = &q.default_families[self.default_i];
            proof {
                assert(q@.defaults[self.default_i as int] == (d.name@, d.monospace));
            }
            self.default_i = self.default_i + 1;
            proof {
                assert(self.state() == IterState { default_i: cur.default_i + 1, ..cur });
            }
            let dkey = find_default_key(&q.faces, d.name.as_str());
            proof {
                assert(face_views(q.faces@) == q@.faces);
                assert(key_view(q.faces@, dkey) == default_key(q@.faces, d.name@));
            }
            if !d.monospace {
                match dkey {
                    Some(k) => {
                        proof {
                            assert(q@.faces[k as int] == q.faces@[k as int]@);
                        }
                        if face_loads(&q.faces, q.faces[k].id) {
                            return Some(q.faces[k].id);
                        }
                        return None;
                    },
                    None => {
                        return None;
                    },
                }
            }
            let r = monospace_round(q, &mut self.monospace_fallbacks, dkey);
            proof {
                assert(self.state() == IterState { mono: self.monospace_fallbacks@, default_i: cur.default_i + 1, ..cur });
            }
            if r.is_some() {
                return r;
            }
        }
        None
    }

    /// The fallback families of the word's scripts.
    fn script_round(&mut self, q: &FallbackQuery) -> (r: Option<u64>)
        ensures
            r == script_phase(q@, old(self).state()).0,
            final(self).state() == script_phase(q@, old(self).state()).1,
    {
        let ghost start = self.state();
        while self.script_i.0 < q.script_families.len()
            invariant
                start == old(self).state(),
                script_phase(q@, self.state()) == script_phase(q@, start),
            decreases q.script_families@.len() - self.script_i.0,
        {
            let fams = &q.script_families[self.script_i.0];
            let ghost si = self.script_i.0;
            proof {
                assert(q@.scripts[self.script_i.0 as int] == names(fams@));
            }
            while self.script_i.1 < fams.len()
                invariant
                    self.script_i.0 == si,
                    (self.script_i.0 as int) < q.script_families@.len(),
                    *fams == q.script_families@[self.script_i.0 as int],
                    q@.scripts[self.script_i.0 as int] == names(fams@),
                    start == old(self).state(),
                    script_phase(q@, self.state()) == script_phase(q@, start),
                decreases fams@.len() - self.script_i.1,
            {
                let fam = &fams[self.script_i.1];
                proof {
                    assert(names(fams@)[self.script_i.1 as int] == fam@);
                    assert(face_views(q.faces@) == q@.faces);
                }
                self.script_i.1 = self.script_i.1 + 1;
                match first_font_of_family(&q.faces, fam.as_str()) {
                    Some(id) => {
                        return Some(id);
                    },
                    None => {},
                }
            }
            self.script_i.0 = self.script_i.0 + 1;
            self.script_i.1 = 0;
        }
        None
    }

    /// The common fallback families.
    fn common_round(&mut self, q: &FallbackQuery) -> (r: Option<u64>)
        ensures
            r == common_phase(q@, old(self).state()).0,
            final(self).state() == common_phase(q@, old(self).state()).1,
    {
        let ghost start = self.state();
        while self.common_i < q.common_fallback.len()
            invariant
                start == old(self).state(),
                common_phase(q@, self.state()) == common_phase(q@, start),
            decreases q.common_fallback@.len() - self.common_i,
        {
            let fam = &q.common_fallback[self.common_i];
            proof {
                assert(q@.common[self.common_i as int] == fam@);
                assert(face_views(q.faces@) == q@.faces);
            }
            self.common_i = self.common_i + 1;
            match first_font_of_family(&q.faces, fam.as_str()) {
                Some(id) => {
                    return Some(id);
                },
                None => {},
            }
        }
        None
    }

    /// Any other allowed font.
    fn other_round(&mut self, q: &FallbackQuery) -> (r: Option<u64>)
        ensures
            r == other_phase(q@, old(self).state()).0,
            final(self).state() == other_phase(q@, old(self).state()).1,
    {
        let ghost start = self.state();
        while self.other_i < q.faces.len()
            invariant
                start == old(self).state(),
                other_phase(q@, self.state()) == other_phase(q@, start),
            decreases q.faces@.len() - self.other_i,
        {
            let f = &q.faces[self.other_i];
            proof {
                assert(q@.faces[self.other_i as int] == f@);
                assert(face_views(q.faces@) == q@.faces);
            }
            self.other_i = self.other_i + 1;
            if is_allowed(f, &q.forbidden_fallback) && face_loads(&q.faces, f.id) {
                return Some(f.id);
            }
        }
        None
    }

    /// The next font to try for the word: a waiting monospace font first, then the
    /// families asked for, the families of the word's scripts, the common fallback
    /// families and any other font that is not forbidden. `None` once all are
    /// tried, and the search has then ended. Where a monospace font would join the
    /// waiting ones a second time the search panics, which `requires` rules out.
    pub fn next_item(&mut self, q: &FallbackQuery) -> (r: Option<u64>)
        requires
            query_wf(q@),
            !spec_next(q@, old(self).state()).2,
        ensures
            r == spec_next(q@, old(self).state()).0,
            final(self).state() == spec_next(q@, old(self).state()).1,
    {
        if self.monospace_fallbacks.len() > 0 {
            let info = self.monospace_fallbacks.remove(0);
            proof {
                assert(face_views(q.faces@) == q@.faces);
            }
            if face_loads(&q.faces, info.id) {
                return Some(info.id);
            }
        }
        let r = self.default_round(q);
        if r.is_some() {
            return r;
        }
        let r = self.script_round(q);
        if r.is_some() {
            return r;
        }
        let r = self.common_round(q);
        if r.is_some() {
            return r;
        }
        let r = self.other_round(q);
        if r.is_some() {
            return r;
        }
        self.end = true;
        None
    }
}

} // verus!
