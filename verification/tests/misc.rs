use cosmic_text::cached::Cached;
use cosmic_text::edit::{Affinity, Change, ChangeItem, Cursor, Selection};
use cosmic_text::large_file::{should_use_rope, should_use_rope_with_threshold, DEFAULT_LARGE_FILE_THRESHOLD};
use cosmic_text::layout::{Align, Wrap};

#[test]
fn cached_states() {
    let mut c: Cached<u32> = Cached::Empty;
    assert!(c.is_unused());
    assert_eq!(c.get(), None);
    c.set_used(5);
    assert!(c.is_used());
    assert_eq!(c.get(), Some(&5));
    if let Some(v) = c.get_mut() {
        *v = 6;
    }
    assert_eq!(c.take_unused(), None);
    c.set_unused();
    assert!(c.is_unused());
    assert_eq!(c.get(), None);
    assert_eq!(c.take_used(), None);
    assert_eq!(c.take_unused(), Some(6));
    assert!(matches!(c, Cached::Empty));
    c.set_used(7);
    assert_eq!(c.take_used(), Some(7));
    assert!(matches!(c, Cached::Empty));
}

fn item(line: usize, text: &str, insert: bool) -> ChangeItem {
    ChangeItem { start: Cursor::new(line, 0), end: Cursor::new(line, text.len()), text: text.to_string(), insert }
}

#[test]
fn change_reverse() {
    let mut c = Change { items: vec![item(0, "a", true), item(1, "bc", false)] };
    c.reverse();
    assert_eq!(c.items.len(), 2);
    assert_eq!(c.items[0].text, "bc");
    assert!(c.items[0].insert);
    assert_eq!(c.items[1].text, "a");
    assert!(!c.items[1].insert);
    c.reverse();
    assert_eq!(c.items[0].text, "a");
    assert!(c.items[0].insert);
    let mut single = item(3, "x", false);
    single.reverse();
    assert!(single.insert);
    let mut empty = Change::default();
    empty.reverse();
    assert!(empty.items.is_empty());
}


#[test]
fn rope_threshold() {
    assert_eq!(DEFAULT_LARGE_FILE_THRESHOLD, 1024 * 1024);
    assert!(!should_use_rope(1024 * 1024));
    assert!(should_use_rope(1024 * 1024 + 1));
    assert!(should_use_rope_with_threshold(11, 10));
    assert!(!should_use_rope_with_threshold(10, 10));
}

#[test]
fn layout_labels() {
    assert_eq!(Wrap::NoWrap.label(), "No Wrap");
    assert_eq!(Wrap::Word.label(), "Word Wrap");
    assert_eq!(Wrap::Glyph.label(), "Character");
    assert_eq!(Align::Justified.label(), "Justified");
    assert_eq!(Align::End.label(), "End");
}
