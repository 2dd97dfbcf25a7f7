use cosmic_text::attrs::{Stretch, Style, Weight};
use cosmic_text::font_index::FaceInfo;
use cosmic_text::monospace::{monospace_font_ids, script_key, ScriptIndex};

fn face(ps: &str, monospaced: bool) -> FaceInfo {
    FaceInfo {
        path: None,
        index: 0,
        families: vec![],
        post_script_name: ps.to_string(),
        style: Style::Normal,
        weight: Weight(400),
        stretch: Stretch::Normal,
        monospaced,
    }
}

#[test]
fn monospace_ids_are_sorted_and_skip_emoji() {
    let faces = vec![
        (5, face("DejaVuSansMono", true)),
        (2, face("NotoSansMono", true)),
        (9, face("DejaVuSans", false)),
        (3, face("NotoColorEmoji", true)),
    ];
    assert_eq!(monospace_font_ids(&faces), vec![2, 5]);
    assert_eq!(monospace_font_ids(&vec![]), Vec::<u64>::new());
}

#[test]
fn script_tags_as_numbers() {
    assert_eq!(script_key(*b"latn"), 0x6c61_746e);
    assert_eq!(script_key([0, 0, 0, 1]), 1);
    assert_eq!(script_key([255, 255, 255, 255]), u32::MAX);
}

#[test]
fn fonts_for_scripts() {
    let fonts = vec![(7, vec![*b"cyrl"]), (2, vec![*b"latn", *b"grek"]), (5, vec![*b"latn"])];
    let index = ScriptIndex::new(&fonts);
    assert_eq!(index.monospace_ids_for_scripts(&vec![*b"latn", *b"cyrl"]), vec![2, 5, 7]);
    assert_eq!(index.monospace_ids_for_scripts(&vec![*b"grek"]), vec![2]);
    // a script asked twice gives its fonts once
    assert_eq!(index.monospace_ids_for_scripts(&vec![*b"latn", *b"latn"]), vec![2, 5]);
    assert_eq!(index.monospace_ids_for_scripts(&vec![*b"hani"]), Vec::<u64>::new());
    assert_eq!(index.monospace_ids_for_scripts(&vec![]), Vec::<u64>::new());
}
