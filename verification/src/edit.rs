//! Editor actions, cursors, selections and reversible change records.

use vstd::prelude::*;

verus! {

/// Which side of a position a cursor sticks to.
#[derive(Clone, Copy, Debug, PartialEq, Eq, Hash, Structural)]
pub enum Affinity {
    Before,
    After,
}

/// A position in a buffer: a line, a byte index within it, and an affinity.
#[derive(Clone, Copy, Debug, PartialEq, Eq, Hash, Structural)]
pub struct Cursor {
    pub line: usize,
    pub index: usize,
    pub affinity: Affinity,
}

impl Cursor {
    /// A cursor at `index` of `line`, sticking to the text before it.
    pub fn new(line: usize, index: usize) -> (c: Self)
        ensures
            c == (Cursor { line, index, affinity: Affinity::Before }),
    {
        Self::new_with_affinity(line, index, Affinity::Before)
    }

    pub fn new_with_affinity(line: usize, index: usize, affinity: Affinity) -> (c: Self)
        ensures
            c == (Cursor { line, index, affinity }),
    {
        Self { line, index, affinity }
    }
}

impl Default for Cursor {
    fn default() -> (c: Self)
        ensures
            c == (Cursor { line: 0, index: 0, affinity: Affinity::Before }),
    {
        Self::new(0, 0)
    }
}

/// An action to perform on an editor
#[derive(Clone, Copy, Debug, PartialEq, Eq, Structural)]
pub enum Action {
    /// Move cursor to previous character ([Self::Left] in LTR, [Self::Right] in RTL)
    Previous,
    /// Move cursor to next character ([Self::Right] in LTR, [Self::Left] in RTL)
    Next,
    /// Move cursor left
    Left,
    /// Move cursor right
    Right,
    /// Move cursor up
    Up,
    /// Move cursor down
    Down,
    /// Move cursor to start of line
    Home,
    /// Move cursor to start of line, skipping whitespace
    SoftHome,
    /// Move cursor to end of line
    End,
    /// Move cursor to start of paragraph
    ParagraphStart,
    /// Move cursor to end of paragraph
    ParagraphEnd,
    /// Move cursor up one page
    PageUp,
    /// Move cursor down one page
    PageDown,
    /// Move cursor up or down by a number of pixels
    Vertical(i32),
    /// Escape, clears selection
    Escape,
    /// Insert character at cursor
    Insert(char),
    /// Create new line
    Enter,
    /// Delete text behind cursor
    Backspace,
    /// Delete text in front of cursor
    Delete,
    /// Indent text (typically Tab)
    Indent,
    /// Unindent text (typically Shift+Tab)
    Unindent,
    /// Mouse click at specified position
    Click { x: i32, y: i32 },
    /// Mouse drag to specified position
    Drag { x: i32, y: i32 },
    /// Scroll specified number of lines
    Scroll { lines: i32 },
    /// Move cursor to previous word boundary
    PreviousWord,
    /// Move cursor to next word boundary
    NextWord,
    /// Move cursor to next word boundary to the left
    LeftWord,
    /// Move cursor to next word boundary to the right
    RightWord,
    /// Move cursor to the start of the document
    BufferStart,
    /// Move cursor to the end of the document
    BufferEnd,
    /// Move cursor to specific line
    GotoLine(usize),
}

/// Selection mode
#[derive(Clone, Copy, Debug, PartialEq, Eq, Structural)]
pub enum Selection {
    /// No selection
    Empty,
    /// Normal selection
    Normal(Cursor),
    /// Select by lines
    Line(Cursor),
}

/// The ordered bounds of a selection between `select` and the cursor.
pub open spec fn spec_selection_bounds(
    cursor: Cursor,
    selection: Selection,
    line_lens: Seq<usize>,
) -> Option<(Cursor, Cursor)> {
    match selection {
        Selection::Empty => None,
        Selection::Normal(select) => if select.line > cursor.line {
            Some((cursor, select))
        } else if select.line < cursor.line {
            Some((select, cursor))
        } else if select.index < cursor.index {
            Some((select, cursor))
        } else {
            Some((cursor, select))
        },
        Selection::Line(select) => {
            let start_line = if select.line <= cursor.line {
                select.line
            } else {
                cursor.line
            };
            let end_line = if select.line >= cursor.line {
                select.line
            } else {
                cursor.line
            };
            Some(
                (
                    Cursor { line: start_line, index: 0, affinity: Affinity::Before },
                    Cursor {
                        line: end_line,
                        index: line_lens[end_line as int],
                        affinity: Affinity::Before,
                    },
                ),
            )
        },
    }
}

/// The bounds of a selection are ordered: the start is on an earlier line, or on the
/// same line at no later index.
pub proof fn lemma_selection_bounds_ordered(
    cursor: Cursor,
    selection: Selection,
    line_lens: Seq<usize>,
)
    requires
        selection matches Selection::Line(select) ==> select.line < line_lens.len() && cursor.line
            < line_lens.len(),
    ensures
        spec_selection_bounds(cursor, selection, line_lens) matches Some((s, e)) ==> s.line < e.line
            || (s.line == e.line && s.index <= e.index),
{
}

/// A unique change to an editor
#[derive(Clone, Debug)]
pub struct ChangeItem {
    /// Cursor indicating start of change
    pub start: Cursor,
    /// Cursor indicating end of change
    pub end: Cursor,
    /// Text to be inserted or deleted
    pub text: String,
    /// Insert if true, delete if false
    pub insert: bool,
}

pub struct ChangeItemView {
    pub start: Cursor,
    pub end: Cursor,
    pub text: Seq<char>,
    pub insert: bool,
}

impl View for ChangeItem {
    type V = ChangeItemView;

    open spec fn view(&self) -> ChangeItemView {
        ChangeItemView { start: self.start, end: self.end, text: self.text@, insert: self.insert }
    }
}

/// The change that undoes `c`: an insertion becomes a deletion of the same text at
/// the same place, and the other way round.
pub open spec fn reversed_item(c: ChangeItemView) -> ChangeItemView {
    ChangeItemView { insert: !c.insert, ..c }
}

impl ChangeItem {
    /// Reverse change item (in place)
    pub fn reverse(&mut self)
        ensures
            final(self)@ == reversed_item(old(self)@),
    {
        self.insert = !self.insert;
    }
}

/// A set of change items grouped into one logical change
#[derive(Clone, Debug, Default)]
pub struct Change {
    /// Change items grouped into one change
    pub items: Vec<ChangeItem>,
}

pub open spec fn item_views(s: Seq<ChangeItem>) -> Seq<ChangeItemView> {
    s.map_values(|c: ChangeItem| c@)
}

/// The change that undoes `s`: its items undone, last first.
pub open spec fn reversed_change(s: Seq<ChangeItemView>) -> Seq<ChangeItemView> {
    Seq::new(s.len(), |i: int| reversed_item(s[s.len() - 1 - i]))
}

impl Change {
    /// Reverse change (in place)
    pub fn reverse(&mut self)
        ensures
            item_views(final(self).items@) == reversed_change(item_views(old(self).items@)),
    {
        let ghost orig = item_views(self.items@);
        let n = self.items.len();
        let mut out: Vec<ChangeItem> = Vec::new();
        while self.items.len() > 0
            invariant
                orig.len() == n,
                self.items@.len() + out@.len() == n,
                item_views(self.items@) == orig.take(self.items@.len() as int),
                item_views(out@) == reversed_change(orig).take(out@.len() as int),
            decreases self.items@.len(),
        {
            let ghost k = self.items@.len();
            let ghost before = item_views(out@);
            let ghost old_items = self.items@;
            let mut item = self.items.pop().unwrap();
            assert(item == old_items[k - 1]);
            assert(item_views(old_items)[k - 1] == old_items[k - 1]@);
            assert(orig.take(k as int)[k - 1] == orig[k - 1]);
            item.reverse();
            out.push(item);
            assert(item_views(self.items@) =~= orig.take(self.items@.len() as int));
            assert(item_views(out@) =~= reversed_change(orig).take(out@.len() as int));
        }
        self.items = out;
        assert(item_views(self.items@) =~= reversed_change(orig));
    }
}

/// Reversing a change twice gives the change back: undoing an undo redoes it.
pub proof fn lemma_reverse_twice(s: Seq<ChangeItemView>)
    ensures
        reversed_change(reversed_change(s)) == s,
{
    assert(reversed_change(reversed_change(s)) =~= s);
}

} // verus!
