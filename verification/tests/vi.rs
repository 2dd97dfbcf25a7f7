use cosmic_text::attrs::{Attrs, AttrsList};
use cosmic_text::buffer_line::BufferLine;
use cosmic_text::edit::{Cursor, Selection};
use cosmic_text::layout::Shaping;
use cosmic_text::rope_text::LineEnding;
use cosmic_text::text_editor::Editor;
use cosmic_text::vi::{find_char, search, select_in, select_word, word_motion, CharFind, WordKind, WordMotion};

fn editor(texts: &[&str], cursor: Cursor) -> Editor {
    let lines = texts
        .iter()
        .map(|t| BufferLine::new(String::from(*t), LineEnding::Lf, AttrsList::new(Attrs::new()), Shaping::Advanced))
        .collect();
    let mut e = Editor::new(lines);
    e.set_cursor(cursor);
    e
}

#[test]
fn select_inside_and_around_parentheses() {
    let mut e = editor(&["foo(bar)baz"], Cursor::new(0, 5));
    select_in(&mut e, '(', ')', false);
    assert_eq!(e.selection(), Selection::Normal(Cursor::new(0, 4)));
    assert_eq!(e.cursor(), Cursor::new(0, 7));

    let mut e = editor(&["foo(bar)baz"], Cursor::new(0, 5));
    select_in(&mut e, '(', ')', true);
    assert_eq!(e.selection(), Selection::Normal(Cursor::new(0, 3)));
    assert_eq!(e.cursor(), Cursor::new(0, 8));
}

#[test]
fn select_the_innermost_object() {
    let mut e = editor(&["a(b(c)d)e"], Cursor::new(0, 4));
    select_in(&mut e, '(', ')', false);
    assert_eq!(e.selection(), Selection::Normal(Cursor::new(0, 4)));
    assert_eq!(e.cursor(), Cursor::new(0, 5));
    // from inside the outer pair, past the inner one
    let mut e = editor(&["a(b(c)d)e"], Cursor::new(0, 6));
    select_in(&mut e, '(', ')', true);
    assert_eq!(e.selection(), Selection::Normal(Cursor::new(0, 1)));
    assert_eq!(e.cursor(), Cursor::new(0, 8));
}

#[test]
fn select_across_lines() {
    let mut e = editor(&["x{", "  y", "}z"], Cursor::new(1, 2));
    select_in(&mut e, '{', '}', false);
    assert_eq!(e.selection(), Selection::Normal(Cursor::new(0, 2)));
    assert_eq!(e.cursor(), Cursor::new(2, 0));
}

#[test]
fn select_inside_quotes() {
    let mut e = editor(&["say \"hé\" now"], Cursor::new(0, 5));
    select_in(&mut e, '"', '"', false);
    assert_eq!(e.selection(), Selection::Normal(Cursor::new(0, 5)));
    assert_eq!(e.cursor(), Cursor::new(0, 8));
}

#[test]
fn select_without_delimiters_stays_near_the_cursor() {
    let mut e = editor(&["ab"], Cursor::new(0, 1));
    select_in(&mut e, '(', ')', false);
    assert_eq!(e.selection(), Selection::Normal(Cursor::new(0, 1)));
    assert_eq!(e.cursor(), Cursor::new(0, 1));
}

#[test]
fn search_forward_then_backward() {
    let mut e = editor(&["abc", "xbx", "b"], Cursor::new(0, 0));
    search(&mut e, "b", true);
    assert_eq!(e.cursor(), Cursor::new(0, 1));
    search(&mut e, "b", true);
    assert_eq!(e.cursor(), Cursor::new(1, 1));
    search(&mut e, "b", true);
    assert_eq!(e.cursor(), Cursor::new(2, 0));
    // nothing after the last match: the cursor stays
    search(&mut e, "b", true);
    assert_eq!(e.cursor(), Cursor::new(2, 0));
    search(&mut e, "b", false);
    assert_eq!(e.cursor(), Cursor::new(1, 1));
    search(&mut e, "b", false);
    assert_eq!(e.cursor(), Cursor::new(0, 1));
    search(&mut e, "b", false);
    assert_eq!(e.cursor(), Cursor::new(0, 1));
}

#[test]
fn search_skips_overlapping_matches() {
    // "aaa" holds one match of "aa" only, at 0
    let mut e = editor(&["aaa"], Cursor::new(0, 0));
    search(&mut e, "aa", true);
    assert_eq!(e.cursor(), Cursor::new(0, 0));
    let mut e = editor(&["aaaa"], Cursor::new(0, 0));
    search(&mut e, "aa", true);
    assert_eq!(e.cursor(), Cursor::new(0, 2));
    let mut e = editor(&["aaaa"], Cursor::new(0, 3));
    search(&mut e, "aa", false);
    assert_eq!(e.cursor(), Cursor::new(0, 2));
    // from the end, "aaa" holds one match of "aa" only, at 1
    let mut e = editor(&["aaa"], Cursor::new(0, 3));
    search(&mut e, "aa", false);
    assert_eq!(e.cursor(), Cursor::new(0, 1));
}

#[test]
fn search_for_nothing_steps_a_character() {
    let mut e = editor(&["aé"], Cursor::new(0, 1));
    search(&mut e, "", true);
    assert_eq!(e.cursor(), Cursor::new(0, 3));
    search(&mut e, "", false);
    assert_eq!(e.cursor(), Cursor::new(0, 1));
}

#[test]
fn find_characters_on_the_line() {
    let mut e = editor(&["hello world"], Cursor::new(0, 0));
    find_char(&mut e, CharFind::Next, 'o');
    assert_eq!(e.cursor(), Cursor::new(0, 4));
    find_char(&mut e, CharFind::Next, 'o');
    assert_eq!(e.cursor(), Cursor::new(0, 7));
    find_char(&mut e, CharFind::Next, 'h');
    assert_eq!(e.cursor(), Cursor::new(0, 7));

    let mut e = editor(&["hello world"], Cursor::new(0, 0));
    find_char(&mut e, CharFind::NextTill, 'o');
    assert_eq!(e.cursor(), Cursor::new(0, 3));
    // the 'o' right after the cursor is passed over
    find_char(&mut e, CharFind::NextTill, 'o');
    assert_eq!(e.cursor(), Cursor::new(0, 6));

    let mut e = editor(&["hello world"], Cursor::new(0, 11));
    find_char(&mut e, CharFind::Previous, 'o');
    assert_eq!(e.cursor(), Cursor::new(0, 7));
    find_char(&mut e, CharFind::Previous, 'l');
    assert_eq!(e.cursor(), Cursor::new(0, 3));

    let mut e = editor(&["hello world"], Cursor::new(0, 11));
    find_char(&mut e, CharFind::PreviousTill, 'o');
    assert_eq!(e.cursor(), Cursor::new(0, 8));
    // a match that ends at the cursor does not count
    let mut e = editor(&["hello world"], Cursor::new(0, 11));
    find_char(&mut e, CharFind::PreviousTill, 'd');
    assert_eq!(e.cursor(), Cursor::new(0, 11));
}

#[test]
fn find_characters_counts_bytes() {
    let mut e = editor(&["aéb€c"], Cursor::new(0, 0));
    find_char(&mut e, CharFind::Next, '€');
    assert_eq!(e.cursor(), Cursor::new(0, 4));
    find_char(&mut e, CharFind::Previous, 'é');
    assert_eq!(e.cursor(), Cursor::new(0, 1));
    find_char(&mut e, CharFind::NextTill, 'c');
    assert_eq!(e.cursor(), Cursor::new(0, 4));
}

#[test]
fn word_motions_forward() {
    let mut e = editor(&["foo bar", "baz qux"], Cursor::new(0, 0));
    word_motion(&mut e, WordMotion::NextStart, WordKind::Lower);
    assert_eq!(e.cursor(), Cursor::new(0, 4));
    // past the last word of a line the motion goes on, passing the word at the next line's start
    word_motion(&mut e, WordMotion::NextStart, WordKind::Lower);
    assert_eq!(e.cursor(), Cursor::new(1, 4));
    let mut e = editor(&["foo bar", "baz qux"], Cursor::new(0, 0));
    word_motion(&mut e, WordMotion::NextEnd, WordKind::Lower);
    assert_eq!(e.cursor(), Cursor::new(0, 2));
}

#[test]
fn word_motions_backward() {
    let mut e = editor(&["foo bar", "baz qux"], Cursor::new(1, 4));
    word_motion(&mut e, WordMotion::PreviousStart, WordKind::Lower);
    assert_eq!(e.cursor(), Cursor::new(0, 4));
    let mut e = editor(&["foo bar"], Cursor::new(0, 6));
    word_motion(&mut e, WordMotion::PreviousEnd, WordKind::Lower);
    assert_eq!(e.cursor(), Cursor::new(0, 2));
    // at the start of the buffer nothing moves
    let mut e = editor(&["foo bar"], Cursor::new(0, 0));
    word_motion(&mut e, WordMotion::PreviousStart, WordKind::Lower);
    assert_eq!(e.cursor(), Cursor::new(0, 0));
}

#[test]
fn word_kinds_differ_on_punctuation() {
    let mut e = editor(&["foo.bar baz"], Cursor::new(0, 0));
    word_motion(&mut e, WordMotion::NextStart, WordKind::Lower);
    assert_eq!(e.cursor(), Cursor::new(0, 3));
    let mut e = editor(&["foo.bar baz"], Cursor::new(0, 0));
    word_motion(&mut e, WordMotion::NextStart, WordKind::Upper);
    assert_eq!(e.cursor(), Cursor::new(0, 8));
}

#[test]
fn select_the_word_under_the_cursor() {
    let mut e = editor(&["foo bar"], Cursor::new(0, 5));
    select_word(&mut e, WordKind::Lower);
    assert_eq!(e.selection(), Selection::Normal(Cursor::new(0, 4)));
    assert_eq!(e.cursor(), Cursor::new(0, 7));
    // on a blank there is no word: nothing changes
    let mut e = editor(&["foo bar"], Cursor::new(0, 3));
    let before = e.selection();
    select_word(&mut e, WordKind::Lower);
    assert_eq!(e.selection(), before);
    assert_eq!(e.cursor(), Cursor::new(0, 3));
}
