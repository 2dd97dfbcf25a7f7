//! Layout settings: wrapping, alignment and shaping strategy.

use vstd::prelude::*;

verus! {

/// Wrapping mode
#[derive(Debug, Eq, PartialEq, Clone, Copy, Structural)]
pub enum Wrap {
    /// No wrapping
    NoWrap,
    /// Wraps at a glyph level
    Glyph,
    /// Word Wrapping
    Word,
}

impl Wrap {
    /// The display name of the wrapping mode.
    pub fn label(&self) -> (s: &'static str)
        ensures
            s@ == match *self {
                Wrap::NoWrap => "No Wrap"@,
                Wrap::Word => "Word Wrap"@,
                Wrap::Glyph => "Character"@,
            },
    {
        match self {
            Self::NoWrap => "No Wrap",
            Self::Word => "Word Wrap",
            Self::Glyph => "Character",
        }
    }
}

/// Align or justify
#[derive(Debug, Eq, PartialEq, Clone, Copy, Structural)]
pub enum Align {
    Left,
    Right,
    Center,
    Justified,
    End,
}

impl Align {
    /// The display name of the alignment.
    pub fn label(&self) -> (s: &'static str)
        ensures
            s@ == match *self {
                Align::Left => "Left"@,
                Align::Right => "Right"@,
                Align::Center => "Center"@,
                Align::Justified => "Justified"@,
                Align::End => "End"@,
            },
    {
        match self {
            Self::Left => "Left",
            Self::Right => "Right",
            Self::Center => "Center",
            Self::Justified => "Justified",
            Self::End => "End",
        }
    }
}

/// The shaping strategy of some text.
#[derive(Debug, Clone, Copy, PartialEq, Eq, Hash, Structural)]
pub enum Shaping {
    /// Basic shaping with no font fallback.
    ///
    /// This shaping strategy is very cheap, but it will not display complex
    /// scripts properly nor try to find missing glyphs in your system fonts.
    Basic,
    /// Advanced text shaping and font fallback.
    ///
    /// You will need to enable this strategy if the text contains a complex
    /// script, the font used needs it, and/or multiple fonts in your system
    /// may be needed to display all of the glyphs.
    Advanced,
}

} // verus!
