use cosmic_text::attrs::{Attrs, AttrsList};
use cosmic_text::buffer_line::BufferLine;
use cosmic_text::edit::{Action, Affinity, Cursor};
use cosmic_text::layout::Shaping;
use cosmic_text::motion::{
    cursor_motion, directional_motion, next_grapheme_end, next_word_end, previous_grapheme_start,
    previous_word_start,
};
use cosmic_text::rope_text::LineEnding;
use cosmic_text::text_editor::Editor;

fn lines(texts: &[&str]) -> Vec<BufferLine> {
    texts
        .iter()
        .map(|t| BufferLine::new(String::from(*t), LineEnding::Lf, AttrsList::new(Attrs::new()), Shaping::Advanced))
        .collect()
}

fn pieces(items: &[(usize, &str)]) -> Vec<(usize, String)> {
    items.iter().map(|(i, s)| (*i, String::from(*s))).collect()
}

#[test]
fn previous_and_next_step_over_grapheme_clusters() {
    let mut e = Editor::new(lines(&["ae\u{301}b", "xy"]));
    e.set_cursor(Cursor::new(0, 4));
    e.action(Action::Previous);
    assert_eq!(e.cursor(), Cursor::new_with_affinity(0, 1, Affinity::After));
    e.action(Action::Next);
    assert_eq!(e.cursor(), Cursor::new_with_affinity(0, 4, Affinity::Before));
    e.action(Action::Next);
    assert_eq!(e.cursor(), Cursor::new_with_affinity(0, 5, Affinity::Before));
    // at the end of a line the next motion goes to the start of the next line
    e.action(Action::Next);
    assert_eq!(e.cursor(), Cursor::new_with_affinity(1, 0, Affinity::Before));
    // and back again
    e.action(Action::Previous);
    assert_eq!(e.cursor(), Cursor::new_with_affinity(0, 5, Affinity::After));
}

#[test]
fn motions_stop_at_the_ends_of_the_document() {
    let mut e = Editor::new(lines(&["ab", "cde"]));
    e.action(Action::Previous);
    assert_eq!(e.cursor(), Cursor::new(0, 0));
    e.action(Action::BufferEnd);
    assert_eq!(e.cursor(), Cursor::new(1, 3));
    e.action(Action::Next);
    assert_eq!(e.cursor(), Cursor::new(1, 3));
    e.action(Action::NextWord);
    assert_eq!(e.cursor(), Cursor::new(1, 3));
    e.action(Action::BufferStart);
    assert_eq!(e.cursor(), Cursor::new(0, 0));
}

#[test]
fn paragraph_ends_and_soft_home() {
    let mut e = Editor::new(lines(&["   abc", "    ", "\t x"]));
    e.set_cursor(Cursor::new(0, 5));
    e.action(Action::SoftHome);
    assert_eq!(e.cursor(), Cursor::new(0, 3));
    e.action(Action::ParagraphEnd);
    assert_eq!(e.cursor(), Cursor::new(0, 6));
    e.action(Action::ParagraphStart);
    assert_eq!(e.cursor(), Cursor::new(0, 0));
    e.set_cursor(Cursor::new(1, 2));
    e.action(Action::SoftHome);
    assert_eq!(e.cursor(), Cursor::new(1, 0));
    e.set_cursor(Cursor::new(2, 0));
    e.action(Action::SoftHome);
    assert_eq!(e.cursor(), Cursor::new(2, 2));
}

#[test]
fn word_motions() {
    let mut e = Editor::new(lines(&["one", "The quick (\"brown\") fox"]));
    e.set_cursor(Cursor::new(1, 10));
    e.action(Action::NextWord);
    assert_eq!(e.cursor(), Cursor::new(1, 17));
    e.action(Action::PreviousWord);
    assert_eq!(e.cursor(), Cursor::new(1, 12));
    e.action(Action::PreviousWord);
    assert_eq!(e.cursor(), Cursor::new(1, 4));
    e.action(Action::PreviousWord);
    assert_eq!(e.cursor(), Cursor::new(1, 0));
    // at the start of a line the previous word motion goes to the end of the line before
    e.action(Action::PreviousWord);
    assert_eq!(e.cursor(), Cursor::new(0, 3));
    e.action(Action::NextWord);
    assert_eq!(e.cursor(), Cursor::new(1, 0));
    e.set_cursor(Cursor::new(1, 21));
    e.action(Action::NextWord);
    assert_eq!(e.cursor(), Cursor::new(1, 23));
}

#[test]
fn motion_on_a_missing_line() {
    let ls = lines(&["ab"]);
    let c = Cursor::new(3, 1);
    assert_eq!(cursor_motion(&ls, c, Some(4), Action::Previous), None);
    assert_eq!(cursor_motion(&ls, c, Some(4), Action::ParagraphEnd), None);
    assert_eq!(cursor_motion(&ls, c, Some(4), Action::ParagraphStart), Some((Cursor::new(3, 0), None)));
    assert_eq!(cursor_motion(&ls, c, Some(4), Action::BufferStart), Some((Cursor::new(0, 0), None)));
    assert_eq!(cursor_motion(&ls, c, Some(4), Action::BufferEnd), Some((Cursor::new(0, 2), None)));
}

#[test]
fn steps_over_given_clusters_and_words() {
    let ps = pieces(&[(0, "a"), (1, "é"), (3, "b")]);
    assert_eq!(previous_grapheme_start(&ps, 3), 1);
    assert_eq!(previous_grapheme_start(&ps, 2), 1);
    assert_eq!(previous_grapheme_start(&ps, 0), 0);
    assert_eq!(previous_grapheme_start(&ps, 9), 3);
    assert_eq!(next_grapheme_end(&ps, 1), Some(3));
    assert_eq!(next_grapheme_end(&ps, 3), Some(4));
    assert_eq!(next_grapheme_end(&ps, 2), None);
    let ws = pieces(&[(0, "The"), (4, "quick"), (12, "brown")]);
    assert_eq!(previous_word_start(&ws, 12), 4);
    assert_eq!(previous_word_start(&ws, 13), 12);
    assert_eq!(previous_word_start(&ws, 0), 0);
    assert_eq!(next_word_end(&ws, 3, 20), 9);
    assert_eq!(next_word_end(&ws, 0, 20), 3);
    assert_eq!(next_word_end(&ws, 17, 20), 20);
}

#[test]
fn left_and_right_follow_the_line_direction() {
    let l = lines(&["abc", "\u{5d0}\u{5d1}\u{5d2}"]);
    // left to right: left goes back, right goes forward
    let (c, x) = directional_motion(&l, Cursor::new(0, 1), Some(7), Action::Left).unwrap();
    assert_eq!((c.line, c.index, x), (0, 0, None));
    let (c, _) = directional_motion(&l, Cursor::new(0, 1), None, Action::Right).unwrap();
    assert_eq!((c.line, c.index), (0, 2));
    // right to left: left goes forward, right goes back
    let (c, _) = directional_motion(&l, Cursor::new(1, 2), None, Action::Left).unwrap();
    assert_eq!((c.line, c.index), (1, 4));
    let (c, _) = directional_motion(&l, Cursor::new(1, 2), None, Action::Right).unwrap();
    assert_eq!((c.line, c.index), (1, 0));
    // a missing line leaves the cursor and the remembered column
    assert_eq!(directional_motion(&l, Cursor::new(5, 0), Some(3), Action::Left), Some((Cursor::new(5, 0), Some(3))));
}

#[test]
fn left_and_right_by_word() {
    let mut e = Editor::new(lines(&["foo bar"]));
    e.set_cursor(Cursor::new(0, 5));
    e.action(Action::LeftWord);
    assert_eq!(e.cursor().index, 4);
    e.action(Action::LeftWord);
    assert_eq!(e.cursor().index, 0);
    e.action(Action::RightWord);
    assert_eq!(e.cursor().index, 3);
}
