use cosmic_text::attrs::{Attrs, AttrsList};
use cosmic_text::buffer_line::BufferLine;
use cosmic_text::edit::{Action, Cursor, Selection};
use cosmic_text::layout::Shaping;
use cosmic_text::rope_text::LineEnding;
use cosmic_text::text_editor::Editor;
use cosmic_text::vi::WordKind;
use cosmic_text::vi_event::{vi_event, vi_key, ViEvent, ViKey, ViMotion, ViOutcome, ViTextObject};

fn editor(texts: &[&str], cursor: Cursor) -> Editor {
    let lines = texts
        .iter()
        .map(|t| BufferLine::new(String::from(*t), LineEnding::Lf, AttrsList::new(Attrs::new()), Shaping::Advanced))
        .collect();
    let mut e = Editor::new(lines);
    e.set_cursor(cursor);
    e
}

#[test]
fn editing_actions_reach_the_parser_as_keys() {
    assert_eq!(vi_key(Action::Indent), Some(ViKey::Tab));
    assert_eq!(vi_key(Action::Unindent), Some(ViKey::Backtab));
    assert_eq!(vi_key(Action::Insert('x')), Some(ViKey::Char('x')));
    assert_eq!(vi_key(Action::Enter), Some(ViKey::Enter));
    assert_eq!(vi_key(Action::GotoLine(3)), None);
    assert_eq!(vi_key(Action::BufferEnd), None);
}

#[test]
fn editing_events_become_actions() {
    let mut e = editor(&["abc"], Cursor::new(0, 1));
    let mut search = None;
    let screen = Vec::new();
    assert_eq!(vi_event(&mut e, &mut search, &screen, ViEvent::Insert('x')), ViOutcome::Apply(Action::Insert('x')));
    assert_eq!(vi_event(&mut e, &mut search, &screen, ViEvent::NewLine), ViOutcome::Apply(Action::Enter));
    assert_eq!(vi_event(&mut e, &mut search, &screen, ViEvent::ShiftLeft), ViOutcome::Apply(Action::Unindent));
    assert_eq!(vi_event(&mut e, &mut search, &screen, ViEvent::Undo), ViOutcome::Undo);
    assert_eq!(vi_event(&mut e, &mut search, &screen, ViEvent::Redraw), ViOutcome::Redraw);
    assert_eq!(vi_event(&mut e, &mut search, &screen, ViEvent::Copy), ViOutcome::Done);
    assert_eq!(e.cursor(), Cursor::new(0, 1));
}

#[test]
fn line_motions() {
    let mut e = editor(&["a", "b", "c"], Cursor::new(0, 0));
    let mut search = None;
    let screen = Vec::new();
    let go = |e: &mut Editor, s: &mut Option<(String, bool)>, m| vi_event(e, s, &screen, ViEvent::Motion(m));
    assert_eq!(go(&mut e, &mut search, ViMotion::GotoLine(5)), ViOutcome::Apply(Action::GotoLine(4)));
    assert_eq!(go(&mut e, &mut search, ViMotion::GotoLine(0)), ViOutcome::Apply(Action::GotoLine(0)));
    assert_eq!(go(&mut e, &mut search, ViMotion::GotoEof), ViOutcome::Apply(Action::GotoLine(2)));
    assert_eq!(go(&mut e, &mut search, ViMotion::LeftInLine), ViOutcome::Done);
    assert_eq!(go(&mut e, &mut search, ViMotion::RightInLine), ViOutcome::Apply(Action::Right));
    assert_eq!(go(&mut e, &mut search, ViMotion::Inside), ViOutcome::Done);
}

#[test]
fn screen_motions() {
    let mut e = editor(&["a"], Cursor::new(0, 0));
    let mut search = None;
    let screen = vec![3, 4, 10];
    assert_eq!(vi_event(&mut e, &mut search, &screen, ViEvent::Motion(ViMotion::ScreenHigh)), ViOutcome::Apply(Action::GotoLine(3)));
    assert_eq!(vi_event(&mut e, &mut search, &screen, ViEvent::Motion(ViMotion::ScreenLow)), ViOutcome::Apply(Action::GotoLine(10)));
    assert_eq!(vi_event(&mut e, &mut search, &screen, ViEvent::Motion(ViMotion::ScreenMiddle)), ViOutcome::Apply(Action::GotoLine(6)));
    let one = vec![7];
    assert_eq!(vi_event(&mut e, &mut search, &one, ViEvent::Motion(ViMotion::ScreenMiddle)), ViOutcome::Done);
    let none = Vec::new();
    assert_eq!(vi_event(&mut e, &mut search, &none, ViEvent::Motion(ViMotion::ScreenHigh)), ViOutcome::Done);
}

#[test]
fn search_is_kept_and_repeated() {
    let mut e = editor(&["abc abc abc"], Cursor::new(0, 0));
    let mut search = None;
    let screen = Vec::new();
    // with no search kept, repeating it does nothing
    assert_eq!(vi_event(&mut e, &mut search, &screen, ViEvent::Motion(ViMotion::NextSearch)), ViOutcome::Done);
    assert_eq!(e.cursor(), Cursor::new(0, 0));
    vi_event(&mut e, &mut search, &screen, ViEvent::SetSearch(String::from("abc"), true));
    assert_eq!(search, Some((String::from("abc"), true)));
    vi_event(&mut e, &mut search, &screen, ViEvent::Motion(ViMotion::NextSearch));
    assert_eq!(e.cursor(), Cursor::new(0, 4));
    vi_event(&mut e, &mut search, &screen, ViEvent::Motion(ViMotion::NextSearch));
    assert_eq!(e.cursor(), Cursor::new(0, 8));
    vi_event(&mut e, &mut search, &screen, ViEvent::Motion(ViMotion::PreviousSearch));
    assert_eq!(e.cursor(), Cursor::new(0, 4));
}

#[test]
fn selection_events() {
    let mut e = editor(&["foo(bar) baz"], Cursor::new(0, 5));
    let mut search = None;
    let screen = Vec::new();
    vi_event(&mut e, &mut search, &screen, ViEvent::SelectStart);
    assert_eq!(e.selection(), Selection::Normal(Cursor::new(0, 5)));
    vi_event(&mut e, &mut search, &screen, ViEvent::SelectClear);
    assert_eq!(e.selection(), Selection::Empty);
    vi_event(&mut e, &mut search, &screen, ViEvent::SelectTextObject(ViTextObject::Parentheses, false));
    assert_eq!(e.selection(), Selection::Normal(Cursor::new(0, 4)));
    assert_eq!(e.cursor(), Cursor::new(0, 7));
    let mut e = editor(&["foo(bar) baz"], Cursor::new(0, 10));
    vi_event(&mut e, &mut search, &screen, ViEvent::SelectTextObject(ViTextObject::Word(WordKind::Lower), false));
    assert_eq!(e.selection(), Selection::Normal(Cursor::new(0, 9)));
    assert_eq!(e.cursor(), Cursor::new(0, 12));
    // a text object with no pair of delimiters and no word selects nothing
    let mut e = editor(&["foo"], Cursor::new(0, 1));
    vi_event(&mut e, &mut search, &screen, ViEvent::SelectTextObject(ViTextObject::Sentence, true));
    assert_eq!(e.selection(), Selection::Empty);
    assert_eq!(e.cursor(), Cursor::new(0, 1));
}

#[test]
fn character_and_word_motions_move_here() {
    let mut e = editor(&["one two three"], Cursor::new(0, 0));
    let mut search = None;
    let screen = Vec::new();
    vi_event(&mut e, &mut search, &screen, ViEvent::Motion(ViMotion::NextChar('t')));
    assert_eq!(e.cursor(), Cursor::new(0, 4));
    vi_event(&mut e, &mut search, &screen, ViEvent::Motion(ViMotion::NextWordStart(WordKind::Lower)));
    assert_eq!(e.cursor(), Cursor::new(0, 8));
    vi_event(&mut e, &mut search, &screen, ViEvent::Motion(ViMotion::PreviousWordEnd(WordKind::Lower)));
    assert_eq!(e.cursor(), Cursor::new(0, 6));
}
