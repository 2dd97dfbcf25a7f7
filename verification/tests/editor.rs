use cosmic_text::attrs::{Attrs, AttrsList, Weight};
use cosmic_text::buffer_line::BufferLine;
use cosmic_text::edit::{Action, Affinity, Cursor, Selection};
use cosmic_text::layout::{Align, Shaping};
use cosmic_text::rope_text::LineEnding;
use cosmic_text::text_editor::Editor;

fn line(text: &str, ending: LineEnding) -> BufferLine {
    BufferLine::new(String::from(text), ending, AttrsList::new(Attrs::new()), Shaping::Advanced)
}

fn editor(texts: &[&str]) -> Editor {
    Editor::new(texts.iter().map(|t| line(t, LineEnding::Lf)).collect())
}

fn texts(e: &Editor) -> Vec<String> {
    e.lines().iter().map(|l| l.text().to_string()).collect()
}

fn endings(e: &Editor) -> Vec<LineEnding> {
    e.lines().iter().map(|l| l.ending()).collect()
}

#[test]
fn selection_bounds_order() {
    let mut e = editor(&["abcde", "abcdef", "abcdefg"]);
    e.set_cursor(Cursor::new(2, 4));
    let cursor = Cursor::new(2, 4);
    assert_eq!(e.selection_bounds(), None);
    e.set_selection(Selection::Normal(Cursor::new(1, 9)));
    assert_eq!(e.selection_bounds(), Some((Cursor::new(1, 9), cursor)));
    e.set_selection(Selection::Normal(Cursor::new(3, 0)));
    assert_eq!(e.selection_bounds(), Some((cursor, Cursor::new(3, 0))));
    e.set_selection(Selection::Normal(Cursor::new(2, 1)));
    assert_eq!(e.selection_bounds(), Some((Cursor::new(2, 1), cursor)));
    e.set_selection(Selection::Normal(Cursor::new(2, 4)));
    assert_eq!(e.selection_bounds(), Some((cursor, Cursor::new(2, 4))));
    e.set_selection(Selection::Line(Cursor::new(0, 3)));
    assert_eq!(e.selection_bounds(), Some((Cursor::new(0, 0), Cursor::new(2, 7))));
    assert_eq!(Cursor::default(), Cursor::new_with_affinity(0, 0, Affinity::Before));
}

#[test]
fn buffer_line_split_and_append() {
    let mut l = line("héllo world", LineEnding::CrLf);
    l.set_align(Some(Align::Center));
    l.set_metadata(7);
    let tail = l.split_off(6);
    assert_eq!(l.text(), "héllo");
    assert_eq!(tail.text(), " world");
    assert_eq!(l.ending(), LineEnding::NoEnding);
    assert_eq!(tail.ending(), LineEnding::CrLf);
    assert_eq!(tail.align(), Some(Align::Center));
    assert_eq!(l.metadata(), None);
    l.append(&tail);
    assert_eq!(l.text(), "héllo world");
    assert_eq!(l.ending(), LineEnding::CrLf);
    assert!(!l.set_ending(LineEnding::CrLf));
    assert!(l.set_ending(LineEnding::Lf));
    assert!(l.set_align(None));
    assert!(!l.set_align(None));
    assert_eq!(l.into_text(), "héllo world");
}

#[test]
fn appending_keeps_the_other_lines_attributes() {
    let bold = Attrs::new().weight(Weight(700));
    let mut a = line("ab", LineEnding::Lf);
    let mut b_attrs = AttrsList::new(bold);
    b_attrs.add_span(0, 1, Attrs::new());
    let b = BufferLine::new(String::from("cd"), LineEnding::Cr, b_attrs, Shaping::Basic);
    a.append(&b);
    assert_eq!(a.text(), "abcd");
    assert_eq!(a.ending(), LineEnding::Cr);
    let spans = a.attrs_list().spans();
    assert_eq!(spans.len(), 2);
    assert_eq!((spans[0].0, spans[0].1), (2, 3));
    assert_eq!(spans[0].2.weight, Weight(400));
    assert_eq!((spans[1].0, spans[1].1), (3, 4));
    assert_eq!(spans[1].2.weight, Weight(700));
    assert_eq!(a.attrs_list().get_span(0).weight, Weight(400));
}

#[test]
fn insert_within_a_line() {
    let mut e = editor(&["hello", "world"]);
    let c = e.insert_at(Cursor::new(0, 2), "XY", None);
    assert_eq!(c, Cursor::new(0, 4));
    assert_eq!(texts(&e), vec!["heXYllo", "world"]);
}

#[test]
fn insert_lines() {
    let mut e = editor(&["hello", "world"]);
    let c = e.insert_at(Cursor::new(0, 2), "a\nbc\nd", None);
    assert_eq!(c, Cursor::new(2, 1));
    assert_eq!(texts(&e), vec!["hea", "bc", "dllo", "world"]);
    assert_eq!(endings(&e), vec![LineEnding::Lf; 4]);
}

#[test]
fn insert_with_trailing_newline() {
    let mut e = editor(&["hello"]);
    let c = e.insert_at(Cursor::new(0, 5), "!\n", None);
    assert_eq!(c, Cursor::new(1, 0));
    assert_eq!(texts(&e), vec!["hello!", ""]);
}

#[test]
fn insert_drops_a_trailing_control_character() {
    let mut e = editor(&["ab"]);
    let c = e.insert_at(Cursor::new(0, 1), "x\t", None);
    assert_eq!(c, Cursor::new(0, 2));
    assert_eq!(texts(&e), vec!["axb"]);
    let c = e.insert_at(Cursor::new(0, 0), "", None);
    assert_eq!(c, Cursor::new(0, 0));
    assert_eq!(texts(&e), vec!["axb"]);
}

#[test]
fn insert_past_the_end_adds_lines() {
    let mut e = Editor::new(vec![line("a", LineEnding::CrLf)]);
    let c = e.insert_at(Cursor::new(2, 0), "z", None);
    assert_eq!(c, Cursor::new(2, 1));
    assert_eq!(texts(&e), vec!["a", "", "z"]);
    assert_eq!(endings(&e), vec![LineEnding::CrLf; 3]);
}

#[test]
fn delete_within_and_across_lines() {
    let mut e = editor(&["hello", "big", "world"]);
    e.delete_range(Cursor::new(0, 1), Cursor::new(0, 3));
    assert_eq!(texts(&e), vec!["hlo", "big", "world"]);
    e.delete_range(Cursor::new(0, 2), Cursor::new(2, 3));
    assert_eq!(texts(&e), vec!["hlld"]);
    let mut e = editor(&["hello", "world"]);
    e.delete_range(Cursor::new(1, 2), Cursor::new(0, 0));
    assert_eq!(texts(&e), vec!["hello", "wo"]);
    assert_eq!(endings(&e), vec![LineEnding::Lf, LineEnding::NoEnding]);
}

#[test]
fn copy_and_delete_selection() {
    let mut e = editor(&["hello", "big", "world"]);
    assert_eq!(e.copy_selection(), None);
    assert!(!e.delete_selection());
    e.set_cursor(Cursor::new(2, 2));
    e.set_selection(Selection::Normal(Cursor::new(0, 3)));
    assert_eq!(e.copy_selection(), Some(String::from("lo\nbig\nwo")));
    assert!(e.delete_selection());
    assert_eq!(texts(&e), vec!["helrld"]);
    assert_eq!(e.cursor(), Cursor::new(0, 3));
    assert_eq!(e.selection(), Selection::Empty);
    e.set_selection(Selection::Normal(Cursor::new(0, 1)));
    assert_eq!(e.copy_selection(), Some(String::from("el")));
    e.set_selection(Selection::Line(Cursor::new(0, 1)));
    assert_eq!(e.copy_selection(), Some(String::from("helrld")));
}

#[test]
fn undo_an_insertion() {
    let mut e = editor(&["hello", "world"]);
    e.start_change();
    let c = e.insert_at(Cursor::new(1, 3), "p\nq\n", None);
    assert_eq!(c, Cursor::new(3, 0));
    assert_eq!(texts(&e), vec!["hello", "worp", "q", "ld"]);
    let mut change = e.finish_change().unwrap();
    assert_eq!(change.items.len(), 1);
    assert_eq!(change.items[0].text, "p\nq\n");
    change.reverse();
    assert!(e.apply_change(&change));
    assert_eq!(texts(&e), vec!["hello", "world"]);
    assert_eq!(endings(&e), vec![LineEnding::Lf, LineEnding::Lf]);
    assert_eq!(e.cursor(), Cursor::new(1, 3));
    // redo
    change.reverse();
    assert!(e.apply_change(&change));
    assert_eq!(texts(&e), vec!["hello", "worp", "q", "ld"]);
    assert_eq!(e.cursor(), Cursor::new(3, 0));
}

#[test]
fn deletions_are_recorded_with_their_text() {
    let mut e = editor(&["hello", "big", "world"]);
    e.start_change();
    e.delete_range(Cursor::new(0, 3), Cursor::new(2, 1));
    let change = e.finish_change().unwrap();
    assert_eq!(change.items[0].text, "lo\nbig\nw");
    assert!(!change.items[0].insert);
    assert!(e.finish_change().is_none());
}

#[test]
fn pending_change_blocks_apply() {
    let mut e = editor(&["ab"]);
    e.start_change();
    e.insert_at(Cursor::new(0, 1), "x", None);
    let mut other = cosmic_text::edit::Change::default();
    other.items.push(cosmic_text::edit::ChangeItem {
        start: Cursor::new(0, 0),
        end: Cursor::new(0, 1),
        text: String::from("a"),
        insert: false,
    });
    assert!(!e.apply_change(&other));
    assert_eq!(texts(&e), vec!["axb"]);
    assert_eq!(e.finish_change().unwrap().items.len(), 1);
    assert!(e.apply_change(&other));
    assert_eq!(texts(&e), vec!["xb"]);
    assert!(e.finish_change().is_none());
}

#[test]
fn typing_and_new_lines() {
    let mut e = editor(&["  ab"]);
    e.set_cursor(Cursor::new(0, 4));
    e.action(Action::Insert('c'));
    assert_eq!(texts(&e), vec!["  abc"]);
    assert_eq!(e.cursor(), Cursor::new(0, 5));
    e.action(Action::Insert('\u{1}'));
    assert_eq!(texts(&e), vec!["  abc"]);
    e.action(Action::Enter);
    assert_eq!(texts(&e), vec!["  abc", ""]);
    assert_eq!(e.cursor(), Cursor::new(1, 0));
    e.set_cursor(Cursor::new(0, 3));
    e.set_auto_indent(true);
    e.action(Action::Insert('\n'));
    assert_eq!(texts(&e), vec!["  a", "  bc", ""]);
    assert_eq!(e.cursor(), Cursor::new(1, 2));
    // a tab is the last character of what it inserts, so it is dropped
    e.action(Action::Insert('\t'));
    assert_eq!(texts(&e), vec!["  a", "  bc", ""]);
}

#[test]
fn typing_replaces_the_selection() {
    let mut e = editor(&["hello world"]);
    e.set_cursor(Cursor::new(0, 5));
    e.set_selection(Selection::Normal(Cursor::new(0, 0)));
    e.action(Action::Insert('J'));
    assert_eq!(texts(&e), vec!["J world"]);
    assert_eq!(e.cursor(), Cursor::new(0, 1));
    assert_eq!(e.selection(), Selection::Empty);
    e.set_selection(Selection::Normal(Cursor::new(0, 3)));
    e.action(Action::Escape);
    assert_eq!(e.selection(), Selection::Empty);
    assert_eq!(texts(&e), vec!["J world"]);
}

#[test]
fn backspace_and_delete() {
    let mut e = editor(&["aé", "b"]);
    e.set_cursor(Cursor::new(0, 3));
    e.action(Action::Backspace);
    assert_eq!(texts(&e), vec!["a", "b"]);
    assert_eq!(e.cursor(), Cursor::new(0, 1));
    e.set_cursor(Cursor::new(1, 0));
    e.action(Action::Backspace);
    assert_eq!(texts(&e), vec!["ab"]);
    assert_eq!(e.cursor(), Cursor::new(0, 1));
    e.action(Action::Delete);
    assert_eq!(texts(&e), vec!["a"]);
    e.action(Action::Delete);
    assert_eq!(texts(&e), vec!["a"]);
    e.set_cursor(Cursor::new(0, 0));
    e.action(Action::Backspace);
    assert_eq!(texts(&e), vec!["a"]);
    let mut e = editor(&["xe\u{301}y", "z"]);
    e.set_cursor(Cursor::new(0, 1));
    e.action(Action::Delete);
    assert_eq!(texts(&e), vec!["xy", "z"]);
    e.set_cursor(Cursor::new(0, 2));
    e.action(Action::Delete);
    assert_eq!(texts(&e), vec!["xyz"]);
}

#[test]
fn indent_and_unindent() {
    let mut e = editor(&["ab", "  cd", "\tx", "      y"]);
    assert_eq!(e.tab_width(), 8);
    e.set_tab_width(0);
    assert_eq!(e.tab_width(), 8);
    e.set_tab_width(4);
    e.set_cursor(Cursor::new(0, 1));
    e.action(Action::Indent);
    assert_eq!(texts(&e)[0], "    ab");
    assert_eq!(e.cursor(), Cursor::new(0, 5));
    e.set_cursor(Cursor::new(2, 0));
    e.set_selection(Selection::Normal(Cursor::new(1, 0)));
    e.action(Action::Indent);
    assert_eq!(texts(&e), vec!["    ab", "    cd", "\t   x", "      y"]);
    assert_eq!(e.cursor(), Cursor::new(2, 4));
    assert_eq!(e.selection(), Selection::Normal(Cursor::new(1, 0)));
    e.action(Action::Unindent);
    assert_eq!(texts(&e), vec!["    ab", "cd", "x", "      y"]);
    assert_eq!(e.cursor(), Cursor::new(2, 0));
    e.set_selection(Selection::Empty);
    e.set_cursor(Cursor::new(3, 7));
    e.action(Action::Unindent);
    assert_eq!(texts(&e)[3], "    y");
    assert_eq!(e.cursor(), Cursor::new(3, 5));
}

#[test]
fn undo_a_deletion() {
    let mut e = editor(&["hello", "big", "world"]);
    e.start_change();
    e.delete_range(Cursor::new(0, 3), Cursor::new(2, 1));
    assert_eq!(texts(&e), vec!["helorld"]);
    let mut change = e.finish_change().unwrap();
    change.reverse();
    assert!(e.apply_change(&change));
    assert_eq!(texts(&e), vec!["hello", "big", "world"]);
    assert_eq!(e.cursor(), Cursor::new(2, 1));
}

#[test]
fn split_then_append_gives_the_line_back() {
    let mut attrs = AttrsList::new(Attrs::new());
    attrs.add_span(1, 4, Attrs::new().weight(Weight(700)));
    let mut l = BufferLine::new(String::from("abcdef"), LineEnding::CrLf, attrs, Shaping::Advanced);
    let tail = l.split_off(2);
    l.append(&tail);
    assert_eq!(l.text(), "abcdef");
    assert_eq!(l.ending(), LineEnding::CrLf);
    let spans = l.attrs_list().spans();
    assert_eq!(spans.len(), 1);
    assert_eq!((spans[0].0, spans[0].1), (1, 4));
}

#[test]
fn setting_text_reports_changes() {
    let mut l = line("abc", LineEnding::Lf);
    l.set_metadata(3);
    assert!(!l.set_text("abc", LineEnding::Lf, AttrsList::new(Attrs::new())));
    assert_eq!(l.metadata(), Some(3));
    assert!(l.set_text("abd", LineEnding::Lf, AttrsList::new(Attrs::new())));
    assert_eq!(l.text(), "abd");
    assert_eq!(l.metadata(), None);
    let mut bold = AttrsList::new(Attrs::new());
    bold.add_span(0, 1, Attrs::new().weight(Weight(700)));
    assert!(l.set_attrs_list(bold.clone()));
    assert!(!l.set_attrs_list(bold));
    assert!(l.set_text("abd", LineEnding::Cr, AttrsList::new(Attrs::new())));
    assert_eq!(l.ending(), LineEnding::Cr);
    assert_eq!(l.attrs_list().spans().len(), 0);
}

#[test]
fn undo_a_change_of_several_items() {
    let mut e = editor(&["hello", "world"]);
    e.start_change();
    e.insert_at(Cursor::new(0, 5), ", big", None);
    e.delete_range(Cursor::new(0, 0), Cursor::new(0, 1));
    e.insert_at(Cursor::new(1, 0), "new\n", None);
    assert_eq!(texts(&e), vec!["ello, big", "new", "world"]);
    let mut change = e.finish_change().unwrap();
    assert_eq!(change.items.len(), 3);
    change.reverse();
    assert!(e.apply_change(&change));
    assert_eq!(texts(&e), vec!["hello", "world"]);
    assert_eq!(endings(&e), vec![LineEnding::Lf, LineEnding::Lf]);
}
