//! What the vi mode does with the keys and events of its key parser: which editor
//! actions reach the parser as keys, and, for each event the parser reports, the
//! change to the editor and what is left for the caller to do.

use vstd::prelude::*;

use crate::edit::{Action, Selection};
use crate::strings::byte_len;
use crate::text_editor::{lemma_state_parts, Editor, EditorView};
use crate::vi::{
    char_find_ok, find_char, search, search_ok, select_in, select_in_ok, select_word,
    spec_char_find, spec_search, spec_select_in, spec_select_word, spec_word_motion, word_motion,
    word_motion_ok, CharFind, WordKind, WordMotion,
};

verus! {

/// A key as the vi key parser takes it.
#[derive(Clone, Copy, Debug, PartialEq, Eq, Structural)]
pub enum ViKey {
    Backspace,
    Backtab,
    Char(char),
    Ctrl(char),
    Delete,
    Down,
    End,
    Enter,
    Escape,
    Home,
    Left,
    PageDown,
    PageUp,
    Right,
    Tab,
    Up,
}

/// The key an editor action stands for in vi mode; `None` for an action that goes
/// straight to the editor.
pub open spec fn spec_vi_key(action: Action) -> Option<ViKey> {
    match action {
        Action::Backspace => Some(ViKey::Backspace),
        Action::Delete => Some(ViKey::Delete),
        Action::Down => Some(ViKey::Down),
        Action::End => Some(ViKey::End),
        Action::Enter => Some(ViKey::Enter),
        Action::Escape => Some(ViKey::Escape),
        Action::Home => Some(ViKey::Home),
        Action::Indent => Some(ViKey::Tab),
        Action::Insert(c) => Some(ViKey::Char(c)),
        Action::Left => Some(ViKey::Left),
        Action::PageDown => Some(ViKey::PageDown),
        Action::PageUp => Some(ViKey::PageUp),
        Action::Right => Some(ViKey::Right),
        Action::Unindent => Some(ViKey::Backtab),
        Action::Up => Some(ViKey::Up),
        _ => None,
    }
}

/// The key an editor action stands for in vi mode, or `None` where the action passes
/// straight to the editor.
pub fn vi_key(action: Action) -> (k: Option<ViKey>)
    ensures
        k == spec_vi_key(action),
{
    match action {
        Action::Backspace => Some(ViKey::Backspace),
        Action::Delete => Some(ViKey::Delete),
        Action::Down => Some(ViKey::Down),
        Action::End => Some(ViKey::End),
        Action::Enter => Some(ViKey::Enter),
        Action::Escape => Some(ViKey::Escape),
        Action::Home => Some(ViKey::Home),
        Action::Indent => Some(ViKey::Tab),
        Action::Insert(c) => Some(ViKey::Char(c)),
        Action::Left => Some(ViKey::Left),
        Action::PageDown => Some(ViKey::PageDown),
        Action::PageUp => Some(ViKey::PageUp),
        Action::Right => Some(ViKey::Right),
        Action::Unindent => Some(ViKey::Backtab),
        Action::Up => Some(ViKey::Up),
        _ => None,
    }
}

/// A motion as the vi key parser reports it.
#[derive(Clone, Copy, Debug, PartialEq, Eq, Structural)]
pub enum ViMotion {
    Around,
    Down,
    End,
    GotoEof,
    GotoLine(usize),
    Home,
    Inside,
    Left,
    LeftInLine,
    Line,
    NextChar(char),
    NextCharTill(char),
    NextSearch,
    NextWordEnd(WordKind),
    NextWordStart(WordKind),
    PageDown,
    PageUp,
    PreviousChar(char),
    PreviousCharTill(char),
    PreviousSearch,
    PreviousWordEnd(WordKind),
    PreviousWordStart(WordKind),
    Right,
    RightInLine,
    ScreenHigh,
    ScreenLow,
    ScreenMiddle,
    Selection,
    SoftHome,
    Up,
}

/// A text object as the vi key parser reports it.
#[derive(Clone, Copy, Debug, PartialEq, Eq, Structural)]
pub enum ViTextObject {
    AngleBrackets,
    Block,
    CurlyBrackets,
    DoubleQuotes,
    Paragraph,
    Parentheses,
    Search { forwards: bool },
    Sentence,
    SingleQuotes,
    SquareBrackets,
    Tag,
    Ticks,
    Word(WordKind),
}

/// An event as the vi key parser reports it.
#[derive(Clone, Debug, PartialEq, Eq)]
pub enum ViEvent {
    AutoIndent,
    Backspace,
    Copy,
    Delete,
    Escape,
    Insert(char),
    NewLine,
    Paste,
    Redraw,
    SelectClear,
    SelectStart,
    SelectTextObject(ViTextObject, bool),
    SetSearch(String, bool),
    ShiftLeft,
    ShiftRight,
    SwapCase,
    Undo,
    Motion(ViMotion),
}

/// What is left for the caller once the editor has taken an event.
#[derive(Clone, Copy, Debug, PartialEq, Eq, Structural)]
pub enum ViOutcome {
    /// Nothing more
    Done,
    /// Run this editor action
    Apply(Action),
    /// Redraw the view
    Redraw,
    /// Undo the last change
    Undo,
}

/// The search text and direction, as values.
pub open spec fn search_view(s: Option<(String, bool)>) -> Option<(Seq<char>, bool)> {
    match s {
        Some((v, f)) => Some((v@, f)),
        None => None,
    }
}

/// The pair of delimiters of a text object, where it has one.
pub open spec fn delimiters(o: ViTextObject) -> Option<(char, char)> {
    match o {
        ViTextObject::AngleBrackets => Some(('<', '>')),
        ViTextObject::CurlyBrackets => Some(('{', '}')),
        ViTextObject::DoubleQuotes => Some(('"', '"')),
        ViTextObject::Parentheses => Some(('(', ')')),
        ViTextObject::SingleQuotes => Some(('\'', '\'')),
        ViTextObject::SquareBrackets => Some(('[', ']')),
        ViTextObject::Ticks => Some(('`', '`')),
        _ => None,
    }
}

/// What taking an event needs of the editor: what the selection, search, character
/// and word helpers it calls need.
pub open spec fn vi_event_ok(st: EditorView, search: Option<(Seq<char>, bool)>, e: ViEvent) -> bool {
    match e {
        ViEvent::SelectTextObject(o, _) => {
            &&& delimiters(o) is Some ==> select_in_ok(st)
            &&& o is Word ==> word_motion_ok(st)
        },
        ViEvent::Motion(m) => match m {
            ViMotion::NextChar(_) | ViMotion::NextCharTill(_) | ViMotion::PreviousChar(_)
            | ViMotion::PreviousCharTill(_) => char_find_ok(st),
            ViMotion::NextSearch => search matches Some((_, f)) ==> search_ok(st, f),
            ViMotion::PreviousSearch => search matches Some((_, f)) ==> search_ok(st, !f),
            ViMotion::NextWordEnd(_) | ViMotion::NextWordStart(_) | ViMotion::PreviousWordEnd(_)
            | ViMotion::PreviousWordStart(_) | ViMotion::RightInLine => word_motion_ok(st),
            _ => true,
        },
        _ => true,
    }
}

/// A motion: the editor after it, and what is left to do. Motions along the text
/// happen here; those that need the layout become editor actions; the pseudo-motions
/// do nothing. `screen` holds the line of each laid-out run on screen, in order.
pub open spec fn spec_vi_motion(
    st: EditorView,
    search: Option<(Seq<char>, bool)>,
    screen: Seq<usize>,
    m: ViMotion,
) -> (EditorView, ViOutcome) {
    match m {
        ViMotion::Down => (st, ViOutcome::Apply(Action::Down)),
        ViMotion::End => (st, ViOutcome::Apply(Action::End)),
        ViMotion::GotoEof => (st, ViOutcome::Apply(Action::GotoLine(
            if st.lines.len() > 0 { (st.lines.len() - 1) as usize } else { 0 },
        ))),
        ViMotion::GotoLine(n) => (st, ViOutcome::Apply(Action::GotoLine(
            if n > 0 { (n - 1) as usize } else { 0 },
        ))),
        ViMotion::Home => (st, ViOutcome::Apply(Action::Home)),
        ViMotion::Left => (st, ViOutcome::Apply(Action::Left)),
        ViMotion::LeftInLine => (st, if st.cursor.index > 0 {
            ViOutcome::Apply(Action::Left)
        } else {
            ViOutcome::Done
        }),
        ViMotion::NextChar(c) => (spec_char_find(st, CharFind::Next, c), ViOutcome::Done),
        ViMotion::NextCharTill(c) => (spec_char_find(st, CharFind::NextTill, c), ViOutcome::Done),
        ViMotion::NextSearch => (match search {
            Some((v, f)) => spec_search(st, v, f),
            None => st,
        }, ViOutcome::Done),
        ViMotion::NextWordEnd(k) => (spec_word_motion(st, WordMotion::NextEnd, k), ViOutcome::Done),
        ViMotion::NextWordStart(k) => (spec_word_motion(st, WordMotion::NextStart, k), ViOutcome::Done),
        ViMotion::PageDown => (st, ViOutcome::Apply(Action::PageDown)),
        ViMotion::PageUp => (st, ViOutcome::Apply(Action::PageUp)),
        ViMotion::PreviousChar(c) => (spec_char_find(st, CharFind::Previous, c), ViOutcome::Done),
        ViMotion::PreviousCharTill(c) => (spec_char_find(st, CharFind::PreviousTill, c), ViOutcome::Done),
        ViMotion::PreviousSearch => (match search {
            Some((v, f)) => spec_search(st, v, !f),
            None => st,
        }, ViOutcome::Done),
        ViMotion::PreviousWordEnd(k) => (spec_word_motion(st, WordMotion::PreviousEnd, k), ViOutcome::Done),
        ViMotion::PreviousWordStart(k) => (spec_word_motion(st, WordMotion::PreviousStart, k), ViOutcome::Done),
        ViMotion::Right => (st, ViOutcome::Apply(Action::Right)),
        ViMotion::RightInLine => (st, if st.cursor.index < byte_len(st.lines[st.cursor.line as int].text) {
            ViOutcome::Apply(Action::Right)
        } else {
            ViOutcome::Done
        }),
        ViMotion::ScreenHigh => (st, if screen.len() > 0 {
            ViOutcome::Apply(Action::GotoLine(screen[0]))
        } else {
            ViOutcome::Done
        }),
        ViMotion::ScreenLow => (st, if screen.len() > 0 {
            ViOutcome::Apply(Action::GotoLine(screen.last()))
        } else {
            ViOutcome::Done
        }),
        ViMotion::ScreenMiddle => (st, if screen.len() > 1 {
            ViOutcome::Apply(Action::GotoLine(((screen[0] + screen.last()) / 2) as usize))
        } else {
            ViOutcome::Done
        }),
        ViMotion::SoftHome => (st, ViOutcome::Apply(Action::SoftHome)),
        ViMotion::Up => (st, ViOutcome::Apply(Action::Up)),
        ViMotion::Around | ViMotion::Inside | ViMotion::Line | ViMotion::Selection => (st, ViOutcome::Done),
    }
}

/// An event: the editor after it, the search kept for later, and what is left to do.
/// Editing events become editor actions; selecting and searching happen here; copy,
/// paste, automatic indenting, case swapping and the text objects with no pair of
/// delimiters and no word do nothing.
pub open spec fn spec_vi_event(
    st: EditorView,
    search: Option<(Seq<char>, bool)>,
    screen: Seq<usize>,
    e: ViEvent,
) -> (EditorView, Option<(Seq<char>, bool)>, ViOutcome) {
    match e {
        ViEvent::Backspace => (st, search, ViOutcome::Apply(Action::Backspace)),
        ViEvent::Delete => (st, search, ViOutcome::Apply(Action::Delete)),
        ViEvent::Escape => (st, search, ViOutcome::Apply(Action::Escape)),
        ViEvent::Insert(c) => (st, search, ViOutcome::Apply(Action::Insert(c))),
        ViEvent::NewLine => (st, search, ViOutcome::Apply(Action::Enter)),
        ViEvent::Redraw => (st, search, ViOutcome::Redraw),
        ViEvent::SelectClear => (EditorView { selection: Selection::Empty, ..st }, search, ViOutcome::Done),
        ViEvent::SelectStart => (
            EditorView { selection: Selection::Normal(st.cursor), ..st },
            search,
            ViOutcome::Done,
        ),
        ViEvent::SelectTextObject(o, with_delims) => (match o {
            ViTextObject::Word(k) => spec_select_word(st, k),
            _ => match delimiters(o) {
                Some((open, close)) => spec_select_in(st, open, close, with_delims),
                None => st,
            },
        }, search, ViOutcome::Done),
        ViEvent::SetSearch(v, f) => (st, Some((v@, f)), ViOutcome::Done),
        ViEvent::ShiftLeft => (st, search, ViOutcome::Apply(Action::Unindent)),
        ViEvent::ShiftRight => (st, search, ViOutcome::Apply(Action::Indent)),
        ViEvent::Undo => (st, search, ViOutcome::Undo),
        ViEvent::Motion(m) => {
            let r = spec_vi_motion(st, search, screen, m);
            (r.0, search, r.1)
        },
        ViEvent::AutoIndent | ViEvent::Copy | ViEvent::Paste | ViEvent::SwapCase => (
            st,
            search,
            ViOutcome::Done,
        ),
    }
}

/// Take a motion: move along the text here, or say which editor action moves.
pub fn vi_motion(
    editor: &mut Editor,
    search_opt: &Option<(String, bool)>,
    screen: &Vec<usize>,
    m: ViMotion,
) -> (r: ViOutcome)
    requires
        vi_event_ok(old(editor).state(), search_view(*search_opt), ViEvent::Motion(m)),
    ensures
        final(editor).state() == spec_vi_motion(old(editor).state(), search_view(*search_opt), screen@, m).0,
        r == spec_vi_motion(old(editor).state(), search_view(*search_opt), screen@, m).1,
{
    proof {
        lemma_state_parts(editor);
    }
    match m {
        ViMotion::Down => ViOutcome::Apply(Action::Down),
        ViMotion::End => ViOutcome::Apply(Action::End),
        ViMotion::GotoEof => {
            let n = editor.lines().len();
            ViOutcome::Apply(Action::GotoLine(if n > 0 { n - 1 } else { 0 }))
        },
        ViMotion::GotoLine(n) => ViOutcome::Apply(Action::GotoLine(if n > 0 { n - 1 } else { 0 })),
        ViMotion::Home => ViOutcome::Apply(Action::Home),
        ViMotion::Left => ViOutcome::Apply(Action::Left),
        ViMotion::LeftInLine => {
            if editor.cursor().index > 0 {
                ViOutcome::Apply(Action::Left)
            } else {
                ViOutcome::Done
            }
        },
        ViMotion::NextChar(c) => {
            find_char(editor, CharFind::Next, c);
            ViOutcome::Done
        },
        ViMotion::NextCharTill(c) => {
            find_char(editor, CharFind::NextTill, c);
            ViOutcome::Done
        },
        ViMotion::NextSearch => {
            if let Some((v, f)) = search_opt {
                search(editor, v.as_str(), *f);
            }
            ViOutcome::Done
        },
        ViMotion::NextWordEnd(k) => {
            word_motion(editor, WordMotion::NextEnd, k);
            ViOutcome::Done
        },
        ViMotion::NextWordStart(k) => {
            word_motion(editor, WordMotion::NextStart, k);
            ViOutcome::Done
        },
        ViMotion::PageDown => ViOutcome::Apply(Action::PageDown),
        ViMotion::PageUp => ViOutcome::Apply(Action::PageUp),
        ViMotion::PreviousChar(c) => {
            find_char(editor, CharFind::Previous, c);
            ViOutcome::Done
        },
        ViMotion::PreviousCharTill(c) => {
            find_char(editor, CharFind::PreviousTill, c);
            ViOutcome::Done
        },
        ViMotion::PreviousSearch => {
            if let Some((v, f)) = search_opt {
                search(editor, v.as_str(), !*f);
            }
            ViOutcome::Done
        },
        ViMotion::PreviousWordEnd(k) => {
            word_motion(editor, WordMotion::PreviousEnd, k);
            ViOutcome::Done
        },
        ViMotion::PreviousWordStart(k) => {
            word_motion(editor, WordMotion::PreviousStart, k);
            ViOutcome::Done
        },
        ViMotion::Right => ViOutcome::Apply(Action::Right),
        ViMotion::RightInLine => {
            let cursor = editor.cursor();
            let lines = editor.lines();
            proof {
                assert(lines@[cursor.line as int]@ == editor.state().lines[cursor.line as int]);
            }
            if cursor.index < lines[cursor.line].text().as_bytes().len() {
                ViOutcome::Apply(Action::Right)
            } else {
                ViOutcome::Done
            }
        },
        ViMotion::ScreenHigh => {
            if screen.len() > 0 {
                ViOutcome::Apply(Action::GotoLine(screen[0]))
            } else {
                ViOutcome::Done
            }
        },
        ViMotion::ScreenLow => {
            if screen.len() > 0 {
                ViOutcome::Apply(Action::GotoLine(screen[screen.len() - 1]))
            } else {
                ViOutcome::Done
            }
        },
        ViMotion::ScreenMiddle => {
            if screen.len() > 1 {
                let first = screen[0];
                let last = screen[screen.len() - 1];
                let mid = first / 2 + last / 2 + (first % 2 + last % 2) / 2;
                ViOutcome::Apply(Action::GotoLine(mid))
            } else {
                ViOutcome::Done
            }
        },
        ViMotion::SoftHome => ViOutcome::Apply(Action::SoftHome),
        ViMotion::Up => ViOutcome::Apply(Action::Up),
        ViMotion::Around | ViMotion::Inside | ViMotion::Line | ViMotion::Selection => ViOutcome::Done,
    }
}

/// Take an event of the vi key parser: change the editor and the kept search as the
/// event asks, and say what is left to do.
pub fn vi_event(
    editor: &mut Editor,
    search_opt: &mut Option<(String, bool)>,
    screen: &Vec<usize>,
    event: ViEvent,
) -> (r: ViOutcome)
    requires
        vi_event_ok(old(editor).state(), search_view(*old(search_opt)), event),
    ensures
        final(editor).state() == spec_vi_event(old(editor).state(), search_view(*old(search_opt)), screen@, event).0,
        search_view(*final(search_opt)) == spec_vi_event(old(editor).state(), search_view(*old(search_opt)), screen@, event).1,
        r == spec_vi_event(old(editor).state(), search_view(*old(search_opt)), screen@, event).2,
{
    proof {
        lemma_state_parts(editor);
    }
    match event {
        ViEvent::Backspace => ViOutcome::Apply(Action::Backspace),
        ViEvent::Delete => ViOutcome::Apply(Action::Delete),
        ViEvent::Escape => ViOutcome::Apply(Action::Escape),
        ViEvent::Insert(c) => ViOutcome::Apply(Action::Insert(c)),
        ViEvent::NewLine => ViOutcome::Apply(Action::Enter),
        ViEvent::Redraw => ViOutcome::Redraw,
        ViEvent::SelectClear => {
            editor.set_selection(Selection::Empty);
            proof {
                lemma_state_parts(editor);
            }
            ViOutcome::Done
        },
        ViEvent::SelectStart => {
            let cursor = editor.cursor();
            editor.set_selection(Selection::Normal(cursor));
            proof {
                lemma_state_parts(editor);
            }
            ViOutcome::Done
        },
        ViEvent::SelectTextObject(o, with_delims) => {
            match o {
                ViTextObject::AngleBrackets => select_in(editor, '<', '>', with_delims),
                ViTextObject::CurlyBrackets => select_in(editor, '{', '}', with_delims),
                ViTextObject::DoubleQuotes => select_in(editor, '"', '"', with_delims),
                ViTextObject::Parentheses => select_in(editor, '(', ')', with_delims),
                ViTextObject::SingleQuotes => select_in(editor, '\'', '\'', with_delims),
                ViTextObject::SquareBrackets => select_in(editor, '[', ']', with_delims),
                ViTextObject::Ticks => select_in(editor, '`', '`', with_delims),
                ViTextObject::Word(k) => select_word(editor, k),
                _ => {},
            }
            ViOutcome::Done
        },
        ViEvent::SetSearch(v, f) => {
            *search_opt = Some((v, f));
            ViOutcome::Done
        },
        ViEvent::ShiftLeft => ViOutcome::Apply(Action::Unindent),
        ViEvent::ShiftRight => ViOutcome::Apply(Action::Indent),
        ViEvent::Undo => ViOutcome::Undo,
        ViEvent::Motion(m) => vi_motion(editor, search_opt, screen, m),
        ViEvent::AutoIndent | ViEvent::Copy | ViEvent::Paste | ViEvent::SwapCase => ViOutcome::Done,
    }
}

} // verus!
