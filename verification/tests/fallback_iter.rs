use cosmic_text::fallback_iter::{DefaultFamily, FallbackFace, FallbackQuery, FontFallbackIter};

fn face(id: u64, diff: u16, families: &[&str], monospace: bool, supported: Option<usize>) -> FallbackFace {
    FallbackFace {
        id,
        font_weight_diff: diff,
        font_weight: 400 + diff,
        families: families.iter().map(|f| String::from(*f)).collect(),
        monospace,
        supported,
    }
}

fn names(v: &[&str]) -> Vec<String> {
    v.iter().map(|s| String::from(*s)).collect()
}

fn query(faces: Vec<FallbackFace>, default: (&str, bool), word_chars: usize) -> FallbackQuery {
    FallbackQuery {
        faces,
        default_families: vec![DefaultFamily { name: String::from(default.0), monospace: default.1 }],
        script_families: Vec::new(),
        common_fallback: Vec::new(),
        forbidden_fallback: Vec::new(),
        monospace_ids: Vec::new(),
        word_chars,
    }
}

fn all(q: &FallbackQuery) -> Vec<Option<u64>> {
    let mut it = FontFallbackIter::new();
    let mut out = Vec::new();
    loop {
        let r = it.next_item(q);
        out.push(r);
        if r.is_none() {
            assert!(it.end());
            return out;
        }
    }
}

#[test]
fn default_family_comes_first_then_the_others() {
    let q = query(
        vec![face(1, 0, &["Serif"], false, Some(3)), face(2, 0, &["Sans"], false, Some(3))],
        ("Sans", false),
        3,
    );
    assert_eq!(all(&q), vec![Some(2), Some(1), Some(2), None]);
}

#[test]
fn default_family_with_another_weight_is_not_the_default() {
    // only a font with the asked weight stands for the default family
    let q = query(vec![face(1, 100, &["Sans"], false, Some(3))], ("Sans", false), 3);
    assert_eq!(all(&q), vec![Some(1), None]);
}

#[test]
fn fonts_that_do_not_load_are_skipped() {
    let q = query(
        vec![face(1, 0, &["Sans"], false, None), face(2, 0, &["Serif"], false, Some(1))],
        ("Sans", false),
        1,
    );
    assert_eq!(all(&q), vec![Some(2), None]);
}

#[test]
fn monospace_default_covering_the_word_is_used_at_once() {
    let q = query(
        vec![face(3, 0, &["Other Mono"], true, Some(4)), face(5, 0, &["Mono"], true, Some(4))],
        ("Mono", true),
        4,
    );
    let mut it = FontFallbackIter::new();
    assert_eq!(it.next_item(&q), Some(5));
    // the other monospace fonts were never ranked: the search goes on with the rest
    assert_eq!(it.next_item(&q), Some(3));
    assert_eq!(it.next_item(&q), Some(5));
    assert_eq!(it.next_item(&q), None);
}

#[test]
fn monospace_fonts_are_tried_by_rank() {
    let q = query(
        vec![
            face(7, 100, &["Wide Mono"], true, Some(3)),
            face(5, 0, &["Mono"], true, Some(2)),
            face(6, 0, &["Exact Mono"], true, Some(3)),
            face(8, 0, &["Lacking Mono"], true, Some(1)),
            face(9, 0, &["Proportional"], false, Some(3)),
        ],
        ("Mono", true),
        3,
    );
    // the default monospace font first, though it lacks a character; then by weight
    // distance, then by how many characters are lacking; then the other fonts in order
    assert_eq!(
        all(&q),
        vec![Some(5), Some(6), Some(8), Some(7), Some(7), Some(5), Some(6), Some(8), Some(9), None]
    );
}

#[test]
fn script_ids_decide_which_fonts_count_as_monospace() {
    let mut q = query(
        vec![
            face(5, 0, &["Mono"], true, Some(1)),
            face(6, 0, &["Script Mono"], false, Some(2)),
            face(7, 0, &["Other Mono"], true, Some(2)),
        ],
        ("Mono", true),
        2,
    );
    q.script_families = vec![names(&[])];
    q.monospace_ids = vec![6];
    let mut it = FontFallbackIter::new();
    assert_eq!(it.next_item(&q), Some(5));
    assert_eq!(it.next_item(&q), Some(6));
    assert_eq!(it.next_item(&q), Some(5));
}

#[test]
fn script_then_common_families_then_allowed_fonts() {
    let mut q = query(
        vec![
            face(1, 0, &["Noto Sans"], false, Some(2)),
            face(2, 0, &["Noto Sans Arabic"], false, Some(2)),
            face(3, 0, &["Bad Font"], false, Some(2)),
            face(4, 0, &["DejaVu Sans"], false, Some(2)),
        ],
        ("Missing", false),
        2,
    );
    q.script_families = vec![names(&["Absent", "Noto Sans Arabic"]), names(&["DejaVu Sans"])];
    q.common_fallback = names(&["Noto Sans"]);
    q.forbidden_fallback = names(&["Bad Font"]);
    assert_eq!(all(&q), vec![Some(2), Some(4), Some(1), Some(1), Some(2), Some(4), None]);
}

use cosmic_text::attrs::{Attrs, Stretch, Style, Weight};
use cosmic_text::font_index::FaceInfo;
use cosmic_text::font_matches::{font_match_keys, FontMatchKey};

fn face_info(ps: &str, style: Style, weight: u16, stretch: Stretch) -> FaceInfo {
    FaceInfo {
        path: None,
        index: 0,
        families: vec![],
        post_script_name: ps.to_string(),
        style,
        weight: Weight(weight),
        stretch,
        monospaced: false,
    }
}

#[test]
fn matching_fonts_come_closest_weight_first() {
    let faces = vec![
        (4, face_info("Sans", Style::Normal, 400, Stretch::Condensed)),
        (2, face_info("Sans-Bold", Style::Normal, 700, Stretch::Normal)),
        (3, face_info("NotoColorEmoji", Style::Italic, 400, Stretch::Normal)),
        (1, face_info("Sans", Style::Normal, 400, Stretch::Normal)),
    ];
    let key = |d, w, id| FontMatchKey { font_weight_diff: d, font_weight: w, id };
    assert_eq!(font_match_keys(&Attrs::new(), &faces), vec![key(0, 400, 1), key(0, 400, 3)]);
    assert_eq!(
        font_match_keys(&Attrs::new().weight(Weight(700)), &faces),
        vec![key(0, 700, 2), key(300, 400, 3)]
    );
}
